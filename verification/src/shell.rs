//! The decisions of a shell session. A session's output has no end known in advance, so
//! the loop that pumps it belongs to the caller; each step here reads once and decides.
use vstd::prelude::*;
use vstd::utf8::{decode_utf8, valid_utf8};

use crate::error::{bytes_outcome, AdbErrorView, IoError, IoErrorKind, Result, RustADBError};
use crate::models::text;
use crate::stream_transport::{ReadRequest, StreamTransport};
use crate::wire::{decimal_bytes, le_bytes, le_value, parse_le_length, push_decimal, utf8_to_string};

verus! {

broadcast use vstd::utf8::encode_utf8_valid_utf8, vstd::utf8::valid_utf8_concat;

/// The largest chunk read from a stream at once.
pub const BUFFER_SIZE: usize = 65535;

/// Whether an I/O error only marks the end of the stream.
pub open spec fn ends_stream(kind: IoErrorKind) -> bool {
    kind == IoErrorKind::UnexpectedEof || kind == IoErrorKind::BrokenPipe
}

fn is_end_of_stream(e: &RustADBError) -> (r: bool)
    ensures
        r == (e@ matches AdbErrorView::IO(k, _) && ends_stream(k)),
{
    match e {
        RustADBError::IOError(io) => io.kind == IoErrorKind::UnexpectedEof || io.kind == IoErrorKind::BrokenPipe,
        _ => false,
    }
}

/// One step of a shell session without protocol v2.
#[derive(Debug)]
pub enum ShellV1Step {
    /// Bytes to write to the standard output.
    Output(Vec<u8>),
    /// The session is over, with this result.
    Done(Result<Option<u8>>),
}

/// A step of a shell session without protocol v2, with its bytes and error taken by their
/// views.
pub enum ShellV1StepView {
    Output(Seq<u8>),
    Done(core::result::Result<Option<u8>, AdbErrorView>),
}

/// The view of a step.
pub open spec fn v1_step_view(s: ShellV1Step) -> ShellV1StepView {
    match s {
        ShellV1Step::Output(v) => ShellV1StepView::Output(v@),
        ShellV1Step::Done(Ok(x)) => ShellV1StepView::Done(Ok(x)),
        ShellV1Step::Done(Err(e)) => ShellV1StepView::Done(Err(e@)),
    }
}

/// What a read tells a shell session without protocol v2: bytes are output; no bytes, or
/// the stream's end, finish it; another error fails it.
pub open spec fn v1_next(r: core::result::Result<Seq<u8>, AdbErrorView>) -> ShellV1StepView {
    match r {
        Ok(v) => if v.len() == 0 {
            ShellV1StepView::Done(Ok(None))
        } else {
            ShellV1StepView::Output(v)
        },
        Err(e) => if e matches AdbErrorView::IO(k, _) && ends_stream(k) {
            ShellV1StepView::Done(Ok(None))
        } else {
            ShellV1StepView::Done(Err(e))
        },
    }
}

/// Decides a step of a shell session without protocol v2 from a read's result; an error
/// that fails the session is passed on as it came.
pub fn shell_v1_decide(r: Result<Vec<u8>>) -> (s: ShellV1Step)
    ensures
        v1_step_view(s) == v1_next(bytes_outcome(r)),
        s matches ShellV1Step::Output(o) ==> r == Ok::<Vec<u8>, RustADBError>(o),
        s matches ShellV1Step::Done(Err(f)) ==> r == Err::<Vec<u8>, RustADBError>(f),
{
    match r {
        Ok(v) => if v.len() == 0 {
            ShellV1Step::Done(Ok(None))
        } else {
            ShellV1Step::Output(v)
        },
        Err(e) => if is_end_of_stream(&e) {
            ShellV1Step::Done(Ok(None))
        } else {
            ShellV1Step::Done(Err(e))
        },
    }
}

/// Reads once, at most `BUFFER_SIZE` bytes, from a shell session without protocol v2 and
/// decides from what the read gave.
pub fn shell_v1_step(transport: &mut StreamTransport) -> (s: ShellV1Step)
    ensures
        final(transport).continues(old(transport)),
        final(transport).sent_since(old(transport)) == Seq::<u8>::empty(),
        old(transport).is_connected() ==> {
            &&& final(transport).reads().len() == old(transport).reads().len() + 1
            &&& final(transport).reads().drop_last() == old(transport).reads()
            &&& final(transport).reads().last().0 == ReadRequest::UpTo(BUFFER_SIZE)
            &&& v1_step_view(s) == v1_next(final(transport).reads().last().1)
        },
        !old(transport).is_connected() ==> v1_step_view(s) == ShellV1StepView::Done(
            Err(AdbErrorView::IO(IoErrorKind::NotConnected, "not connected"@)),
        ) && final(transport).unchanged_since(old(transport)),
        s matches ShellV1Step::Output(o) ==> o@.len() > 0 && o@.len() <= BUFFER_SIZE && o@ == final(transport).received_since(old(transport)),
        !(s is Output) ==> final(transport).received_since(old(transport)) == Seq::<u8>::empty(),
        old(transport).is_connected() ==> (s matches ShellV1Step::Done(Err(RustADBError::IOError(e)))
            ==> final(transport).faults() == old(transport).faults().push(e)),
{
    let r = transport.read(BUFFER_SIZE);
    shell_v1_decide(r)
}

/// The channels of the shell protocol v2.
#[derive(Clone, Copy, Debug, PartialEq, Eq, Structural)]
pub enum ShellChannel {
    Stdout,
    Stderr,
    ExitStatus,
}

/// The channel that a packet's first byte names.
pub open spec fn channel_of(b: u8) -> Option<ShellChannel> {
    if b == 1 {
        Some(ShellChannel::Stdout)
    } else if b == 2 {
        Some(ShellChannel::Stderr)
    } else if b == 3 {
        Some(ShellChannel::ExitStatus)
    } else {
        None
    }
}

/// Reads a channel byte: an I/O error of kind `InvalidData` for an unknown channel.
pub fn shell_channel_from(b: u8) -> (r: Result<ShellChannel>)
    ensures
        match channel_of(b) {
            Some(c) => r == Ok::<ShellChannel, RustADBError>(c),
            None => r matches Err(e) && e@ == AdbErrorView::IO(IoErrorKind::InvalidData, "Invalid channel"@),
        },
{
    if b == 1 {
        Ok(ShellChannel::Stdout)
    } else if b == 2 {
        Ok(ShellChannel::Stderr)
    } else if b == 3 {
        Ok(ShellChannel::ExitStatus)
    } else {
        Err(RustADBError::IOError(IoError { kind: IoErrorKind::InvalidData, message: String::from_str("Invalid channel") }))
    }
}

/// Where a session is in the shell protocol v2.
#[derive(Clone, Copy, Debug, PartialEq, Eq, Structural)]
pub enum ShellV2Phase {
    /// Next comes a five-byte packet header.
    Header,
    /// Next come this many payload bytes of this channel.
    Payload(ShellChannel, usize),
    /// Next comes the one-byte exit status.
    ExitByte,
}

/// A session of the shell protocol v2: the exit status seen so far, and the phase.
#[derive(Debug)]
pub struct ShellV2Reader {
    exit: Option<u8>,
    phase: ShellV2Phase,
}

/// One step of a shell session over the protocol v2.
#[derive(Debug)]
pub enum ShellV2Step {
    /// Payload bytes of the standard output or error channel.
    Output(ShellChannel, Vec<u8>),
    /// Nothing to write; read on.
    Continue,
    /// The session is over, with this result: the exit status where one came.
    Done(Result<Option<u8>>),
}

/// A step, with its bytes and error taken by their views.
pub enum ShellV2StepView {
    Output(ShellChannel, Seq<u8>),
    Continue,
    Done(core::result::Result<Option<u8>, AdbErrorView>),
}

/// The view of a step.
pub open spec fn step_view(s: ShellV2Step) -> ShellV2StepView {
    match s {
        ShellV2Step::Output(c, v) => ShellV2StepView::Output(c, v@),
        ShellV2Step::Continue => ShellV2StepView::Continue,
        ShellV2Step::Done(Ok(x)) => ShellV2StepView::Done(Ok(x)),
        ShellV2Step::Done(Err(e)) => ShellV2StepView::Done(Err(e@)),
    }
}

/// The message for an exit-status packet whose size is not one.
pub open spec fn spurious_exit_bytes(size: nat) -> Seq<u8> {
    text("Spurious exit status packet with size of ") + decimal_bytes(size) + text(" (should be 1)")
}

/// The read that a phase asks for.
pub open spec fn read_for(phase: ShellV2Phase) -> ReadRequest {
    match phase {
        ShellV2Phase::Header => ReadRequest::Exact(5),
        ShellV2Phase::Payload(_, rem) => ReadRequest::UpTo(if rem < BUFFER_SIZE { rem } else { BUFFER_SIZE }),
        ShellV2Phase::ExitByte => ReadRequest::Exact(1),
    }
}

/// A read result that agrees with the read asked for.
pub open spec fn read_fits(req: ReadRequest, r: core::result::Result<Seq<u8>, AdbErrorView>) -> bool {
    r matches Ok(v) ==> match req {
        ReadRequest::Exact(n) => v.len() == n,
        ReadRequest::UpTo(m) => v.len() <= m,
    }
}

/// How a session of the shell protocol v2 goes on from a state and a read result: the
/// next exit status and phase, and the step.
pub open spec fn v2_next(
    exit: Option<u8>,
    phase: ShellV2Phase,
    r: core::result::Result<Seq<u8>, AdbErrorView>,
) -> (Option<u8>, ShellV2Phase, ShellV2StepView) {
    match phase {
        ShellV2Phase::Header => match r {
            Err(e) => if e matches AdbErrorView::IO(k, _) && ends_stream(k) {
                (exit, phase, ShellV2StepView::Done(Ok(None)))
            } else {
                (exit, phase, ShellV2StepView::Done(Err(e)))
            },
            Ok(h) => match channel_of(h[0]) {
                None => (exit, phase, ShellV2StepView::Done(Err(AdbErrorView::IO(IoErrorKind::InvalidData, "Invalid channel"@)))),
                Some(c) => {
                    let size = le_value(h.subrange(1, 5));
                    if size == 0 {
                        (exit, phase, ShellV2StepView::Continue)
                    } else if c == ShellChannel::ExitStatus {
                        if size == 1 {
                            (exit, ShellV2Phase::ExitByte, ShellV2StepView::Continue)
                        } else {
                            (exit, phase, ShellV2StepView::Done(Err(AdbErrorView::ShellV2Parse(decode_utf8(spurious_exit_bytes(size))))))
                        }
                    } else {
                        (exit, ShellV2Phase::Payload(c, size as usize), ShellV2StepView::Continue)
                    }
                },
            },
        },
        ShellV2Phase::Payload(c, rem) => match r {
            Err(e) => (exit, phase, ShellV2StepView::Done(Err(e))),
            Ok(v) => if v.len() == 0 {
                (exit, phase, ShellV2StepView::Done(Ok(exit)))
            } else if v.len() >= rem {
                (exit, ShellV2Phase::Header, ShellV2StepView::Output(c, v))
            } else {
                (exit, ShellV2Phase::Payload(c, (rem - v.len()) as usize), ShellV2StepView::Output(c, v))
            },
        },
        ShellV2Phase::ExitByte => match r {
            Err(e) => if e matches AdbErrorView::IO(k, _) && ends_stream(k) {
                (exit, phase, ShellV2StepView::Done(Ok(None)))
            } else {
                (exit, phase, ShellV2StepView::Done(Err(e)))
            },
            Ok(b) => (Some(b[0]), ShellV2Phase::Header, ShellV2StepView::Continue),
        },
    }
}

fn spurious_exit_message(size: usize) -> (m: String)
    ensures
        m@ == decode_utf8(spurious_exit_bytes(size as nat)),
{
    let mut b: Vec<u8> = Vec::new();
    b.extend_from_slice("Spurious exit status packet with size of ".as_bytes());
    let ghost b0 = b@;
    push_decimal(&mut b, size as u64);
    b.extend_from_slice(" (should be 1)".as_bytes());
    proof {
        crate::wire::lemma_decimal_ascii(size as nat);
        crate::wire::lemma_ascii_decode(decimal_bytes(size as nat));
        let t1 = text("Spurious exit status packet with size of ");
        let t2 = text(" (should be 1)");
        assert(valid_utf8(t1));
        assert(valid_utf8(t2));
        assert(valid_utf8(t1 + decimal_bytes(size as nat)));
        assert(valid_utf8(t1 + decimal_bytes(size as nat) + t2));
        assert(b@ =~= spurious_exit_bytes(size as nat));
    }
    match utf8_to_string(b.as_slice()) {
        Some(m) => m,
        None => String::new(),
    }
}

impl ShellV2Reader {
    /// The exit status seen so far.
    pub closed spec fn exit(&self) -> Option<u8> {
        self.exit
    }

    /// Where the session is.
    pub closed spec fn phase(&self) -> ShellV2Phase {
        self.phase
    }

    /// A session that waits for its first packet.
    pub fn new() -> (s: Self)
        ensures
            s.exit() is None,
            s.phase() == ShellV2Phase::Header,
    {
        ShellV2Reader { exit: None, phase: ShellV2Phase::Header }
    }

    /// The read that the session asks for next.
    pub fn next_read(&self) -> (r: ReadRequest)
        ensures
            r == read_for(self.phase()),
            self.phase() matches ShellV2Phase::Payload(_, rem) ==> (r matches ReadRequest::UpTo(m) && m <= rem
                && m <= BUFFER_SIZE && (rem > 0 ==> m > 0)),
    {
        match self.phase {
            ShellV2Phase::Header => ReadRequest::Exact(5),
            ShellV2Phase::Payload(_, rem) => ReadRequest::UpTo(if rem < BUFFER_SIZE { rem } else { BUFFER_SIZE }),
            ShellV2Phase::ExitByte => ReadRequest::Exact(1),
        }
    }

    /// Goes on from the result of the read that the session asked for.
    pub fn on_read(&mut self, r: Result<Vec<u8>>) -> (s: ShellV2Step)
        requires
            read_fits(read_for(old(self).phase()), crate::error::bytes_outcome(r)),
        ensures
            (final(self).exit(), final(self).phase(), step_view(s)) == v2_next(
                old(self).exit(),
                old(self).phase(),
                crate::error::bytes_outcome(r),
            ),
    {
        match self.phase {
            ShellV2Phase::Header => match r {
                Err(e) => if is_end_of_stream(&e) {
                    ShellV2Step::Done(Ok(None))
                } else {
                    ShellV2Step::Done(Err(e))
                },
                Ok(h) => {
                    let c = match shell_channel_from(h[0]) {
                        Ok(c) => c,
                        Err(e) => {
                            return ShellV2Step::Done(Err(e));
                        },
                    };
                    let size4 = vec![h[1], h[2], h[3], h[4]];
                    let size = parse_le_length(size4.as_slice()) as usize;
                    assert(size4@ =~= h@.subrange(1, 5));
                    if size == 0 {
                        ShellV2Step::Continue
                    } else if c == ShellChannel::ExitStatus {
                        if size == 1 {
                            self.phase = ShellV2Phase::ExitByte;
                            ShellV2Step::Continue
                        } else {
                            ShellV2Step::Done(Err(RustADBError::ADBShellV2ParseError(spurious_exit_message(size))))
                        }
                    } else {
                        self.phase = ShellV2Phase::Payload(c, size);
                        ShellV2Step::Continue
                    }
                },
            },
            ShellV2Phase::Payload(c, rem) => match r {
                Err(e) => ShellV2Step::Done(Err(e)),
                Ok(v) => if v.len() == 0 {
                    ShellV2Step::Done(Ok(self.exit))
                } else if v.len() >= rem {
                    self.phase = ShellV2Phase::Header;
                    ShellV2Step::Output(c, v)
                } else {
                    self.phase = ShellV2Phase::Payload(c, rem - v.len());
                    ShellV2Step::Output(c, v)
                },
            },
            ShellV2Phase::ExitByte => match r {
                Err(e) => if is_end_of_stream(&e) {
                    ShellV2Step::Done(Ok(None))
                } else {
                    ShellV2Step::Done(Err(e))
                },
                Ok(b) => {
                    self.exit = Some(b[0]);
                    self.phase = ShellV2Phase::Header;
                    ShellV2Step::Continue
                },
            },
        }
    }

    /// Performs the read that the session asks for, then goes on from its result.
    pub fn step(&mut self, transport: &mut StreamTransport) -> (s: ShellV2Step)
        ensures
            final(transport).continues(old(transport)),
            final(transport).sent_since(old(transport)) == Seq::<u8>::empty(),
            exists|r: core::result::Result<Seq<u8>, AdbErrorView>|
                {
                    &&& read_fits(read_for(old(self).phase()), r)
                    &&& (old(transport).is_connected() ==> final(transport).reads() == old(transport).reads().push(
                        (read_for(old(self).phase()), r),
                    ))
                    &&& (!old(transport).is_connected() ==> r == Err::<Seq<u8>, AdbErrorView>(
                        AdbErrorView::IO(IoErrorKind::NotConnected, "not connected"@),
                    ))
                    &&& (r matches Ok(v) ==> v == final(transport).received_since(old(transport)))
                    &&& (r is Err ==> final(transport).received_since(old(transport)) == Seq::<u8>::empty()
                        && r matches Err(AdbErrorView::IO(_, _)))
                    &&& (r is Ok ==> final(transport).faults() == old(transport).faults())
                    &&& (old(transport).is_connected() ==> (r matches Err(AdbErrorView::IO(k, m)) ==> {
                        &&& final(transport).faults().len() == old(transport).faults().len() + 1
                        &&& final(transport).faults().drop_last() == old(transport).faults()
                        &&& final(transport).faults().last().kind == k
                        &&& final(transport).faults().last().message@ == m
                    }))
                    &&& (final(self).exit(), final(self).phase(), step_view(s)) == v2_next(
                        old(self).exit(),
                        old(self).phase(),
                        r,
                    )
                },
    {
        let r = match self.next_read() {
            ReadRequest::Exact(n) => transport.read_exact(n),
            ReadRequest::UpTo(m) => transport.read(m),
        };
        let ghost rv = crate::error::bytes_outcome(r);
        let s = self.on_read(r);
        assert(read_fits(read_for(old(self).phase()), rv));
        s
    }
}

/// A session fed with reads that all succeed, up to the step that ends it: the exit
/// status and phase it is left in, and the output bytes of its steps, in order.
pub open spec fn v2_feed(exit: Option<u8>, phase: ShellV2Phase, reads: Seq<Seq<u8>>) -> (Option<u8>, ShellV2Phase, Seq<u8>)
    decreases reads.len(),
{
    if reads.len() == 0 {
        (exit, phase, seq![])
    } else {
        let (e1, p1, step) = v2_next(exit, phase, Ok(reads[0]));
        let (e2, p2, rest) = v2_feed(e1, p1, reads.drop_first());
        match step {
            ShellV2StepView::Output(_, v) => (e2, p2, v + rest),
            ShellV2StepView::Done(_) => (e1, p1, seq![]),
            _ => (e2, p2, rest),
        }
    }
}

/// How a session fed with reads that all succeed ends: the result of the step that ends
/// it, if one does.
pub open spec fn v2_result(exit: Option<u8>, phase: ShellV2Phase, reads: Seq<Seq<u8>>) -> Option<
    core::result::Result<Option<u8>, AdbErrorView>,
>
    decreases reads.len(),
{
    if reads.len() == 0 {
        None
    } else {
        let (e1, p1, step) = v2_next(exit, phase, Ok(reads[0]));
        match step {
            ShellV2StepView::Done(r) => Some(r),
            _ => v2_result(e1, p1, reads.drop_first()),
        }
    }
}

/// The total length of some reads.
pub open spec fn total_len(reads: Seq<Seq<u8>>) -> nat
    decreases reads.len(),
{
    if reads.len() == 0 {
        0
    } else {
        reads[0].len() + total_len(reads.drop_first())
    }
}

/// The reads joined, in order.
pub open spec fn joined(reads: Seq<Seq<u8>>) -> Seq<u8>
    decreases reads.len(),
{
    if reads.len() == 0 {
        seq![]
    } else {
        reads[0] + joined(reads.drop_first())
    }
}

/// A payload reaches the output whole and in order, however the stream splits it into
/// reads; then the session waits for the next header, with its exit status unchanged.
pub proof fn lemma_payload_delivered_whole(exit: Option<u8>, c: ShellChannel, rem: usize, reads: Seq<Seq<u8>>)
    requires
        rem > 0,
        forall|i: int| 0 <= i < reads.len() ==> (#[trigger] reads[i]).len() > 0,
        total_len(reads) == rem,
    ensures
        v2_feed(exit, ShellV2Phase::Payload(c, rem), reads) == (exit, ShellV2Phase::Header, joined(reads)),
        v2_result(exit, ShellV2Phase::Payload(c, rem), reads) is None,
    decreases reads.len(),
{
    assert(reads.len() > 0);
    let r0 = reads[0];
    let rest = reads.drop_first();
    assert(r0.len() > 0);
    if rest.len() == 0 {
        assert(total_len(rest) == 0);
        assert(r0.len() == rem);
        assert(v2_next(exit, ShellV2Phase::Payload(c, rem), Ok(r0)) == (exit, ShellV2Phase::Header, ShellV2StepView::Output(c, r0)));
        assert(v2_feed(exit, ShellV2Phase::Header, rest) == (exit, ShellV2Phase::Header, Seq::<u8>::empty()));
        assert(joined(rest) == Seq::<u8>::empty());
        assert(v2_result(exit, ShellV2Phase::Header, rest) is None);
        assert(joined(reads) =~= r0);
        assert(r0 + Seq::<u8>::empty() =~= r0);
    } else {
        assert(forall|i: int| 0 <= i < rest.len() ==> rest[i] == reads[i + 1]);
        assert(rest[0].len() > 0);
        assert(total_len(rest) > 0);
        assert(r0.len() < rem);
        let rem2 = (rem - r0.len()) as usize;
        assert(v2_next(exit, ShellV2Phase::Payload(c, rem), Ok(r0)) == (exit, ShellV2Phase::Payload(c, rem2), ShellV2StepView::Output(c, r0)));
        lemma_payload_delivered_whole(exit, c, rem2, rest);
        assert(joined(reads) == r0 + joined(rest));
    }
}

/// An exit-status packet sets the exit status to its byte, whatever came before, and the
/// session then waits for the next header.
pub proof fn lemma_exit_packet_sets_status(exit: Option<u8>, b: u8)
    ensures
        v2_feed(exit, ShellV2Phase::Header, seq![seq![3u8, 1, 0, 0, 0], seq![b]]) == (
            Some(b),
            ShellV2Phase::Header,
            Seq::<u8>::empty(),
        ),
{
    let h = seq![3u8, 1, 0, 0, 0];
    let s = h.subrange(1, 5);
    assert(s =~= seq![1u8, 0, 0, 0]);
    let s1 = s.drop_first();
    let s2 = s1.drop_first();
    let s3 = s2.drop_first();
    assert(s1 =~= seq![0u8, 0, 0]);
    assert(s2 =~= seq![0u8, 0]);
    assert(s3 =~= seq![0u8]);
    assert(s3.drop_first() =~= Seq::<u8>::empty());
    assert(le_value(s3.drop_first()) == 0);
    assert(le_value(s3) == 0);
    assert(le_value(s2) == 0);
    assert(le_value(s1) == 0);
    assert(le_value(s) == 1);
    let reads = seq![h, seq![b]];
    assert(reads.drop_first() =~= seq![seq![b]]);
    assert(reads.drop_first().drop_first() =~= Seq::<Seq<u8>>::empty());
    assert(v2_next(exit, ShellV2Phase::Header, Ok(h)) == (exit, ShellV2Phase::ExitByte, ShellV2StepView::Continue));
    assert(v2_next(exit, ShellV2Phase::ExitByte, Ok(seq![b])) == (Some(b), ShellV2Phase::Header, ShellV2StepView::Continue));
    assert(v2_feed(Some(b), ShellV2Phase::Header, reads.drop_first().drop_first()) == (Some(b), ShellV2Phase::Header, Seq::<u8>::empty()));
    assert(reads.drop_first()[0] == seq![b]);
    assert(v2_feed(exit, ShellV2Phase::ExitByte, reads.drop_first()) == (Some(b), ShellV2Phase::Header, Seq::<u8>::empty()));
    assert(reads[0] == h);
}

/// The bytes that a session fed with reads that all succeed hands out on `channel`, in
/// order.
pub open spec fn v2_channel_feed(
    exit: Option<u8>,
    phase: ShellV2Phase,
    reads: Seq<Seq<u8>>,
    channel: ShellChannel,
) -> Seq<u8>
    decreases reads.len(),
{
    if reads.len() == 0 {
        seq![]
    } else {
        let (e1, p1, step) = v2_next(exit, phase, Ok(reads[0]));
        let rest = v2_channel_feed(e1, p1, reads.drop_first(), channel);
        match step {
            ShellV2StepView::Output(c, v) => if c == channel {
                v + rest
            } else {
                rest
            },
            ShellV2StepView::Done(_) => seq![],
            _ => rest,
        }
    }
}

/// The reads of a data packet: its five-byte header (the channel byte, then the payload's
/// length in four little-endian bytes), then its payload in the pieces that the stream
/// delivers it in.
pub open spec fn packet_reads(channel: u8, pieces: Seq<Seq<u8>>) -> Seq<Seq<u8>> {
    seq![seq![channel] + le_bytes(total_len(pieces), 4)] + pieces
}

/// The reads of packets, one after the other.
pub open spec fn packets_reads(packets: Seq<(u8, Seq<Seq<u8>>)>) -> Seq<Seq<u8>>
    decreases packets.len(),
{
    if packets.len() == 0 {
        seq![]
    } else {
        packet_reads(packets[0].0, packets[0].1) + packets_reads(packets.drop_first())
    }
}

/// The payloads of the packets whose channel byte is `channel`, joined in order.
pub open spec fn payloads_on(packets: Seq<(u8, Seq<Seq<u8>>)>, channel: u8) -> Seq<u8>
    decreases packets.len(),
{
    if packets.len() == 0 {
        seq![]
    } else {
        (if packets[0].0 == channel {
            joined(packets[0].1)
        } else {
            seq![]
        }) + payloads_on(packets.drop_first(), channel)
    }
}

/// The payloads of all the packets, joined in order.
pub open spec fn all_payloads(packets: Seq<(u8, Seq<Seq<u8>>)>) -> Seq<u8>
    decreases packets.len(),
{
    if packets.len() == 0 {
        seq![]
    } else {
        joined(packets[0].1) + all_payloads(packets.drop_first())
    }
}

/// Feeding two runs of reads is feeding the first, then, unless the first ended the
/// session, the second from where the first left it.
proof fn lemma_feed_append(exit: Option<u8>, phase: ShellV2Phase, a: Seq<Seq<u8>>, b: Seq<Seq<u8>>, channel: ShellChannel)
    ensures
        v2_result(exit, phase, a) is Some ==> {
            &&& v2_feed(exit, phase, a + b) == v2_feed(exit, phase, a)
            &&& v2_channel_feed(exit, phase, a + b, channel) == v2_channel_feed(exit, phase, a, channel)
            &&& v2_result(exit, phase, a + b) == v2_result(exit, phase, a)
        },
        v2_result(exit, phase, a) is None ==> {
            &&& v2_feed(exit, phase, a + b) == (
                v2_feed(v2_feed(exit, phase, a).0, v2_feed(exit, phase, a).1, b).0,
                v2_feed(v2_feed(exit, phase, a).0, v2_feed(exit, phase, a).1, b).1,
                v2_feed(exit, phase, a).2 + v2_feed(v2_feed(exit, phase, a).0, v2_feed(exit, phase, a).1, b).2,
            )
            &&& v2_channel_feed(exit, phase, a + b, channel) == v2_channel_feed(exit, phase, a, channel)
                + v2_channel_feed(v2_feed(exit, phase, a).0, v2_feed(exit, phase, a).1, b, channel)
            &&& v2_result(exit, phase, a + b) == v2_result(v2_feed(exit, phase, a).0, v2_feed(exit, phase, a).1, b)
        },
    decreases a.len(),
{
    if a.len() == 0 {
        assert(a + b =~= b);
        assert(Seq::<u8>::empty() + v2_feed(exit, phase, b).2 =~= v2_feed(exit, phase, b).2);
        assert(Seq::<u8>::empty() + v2_channel_feed(exit, phase, b, channel) =~= v2_channel_feed(exit, phase, b, channel));
    } else {
        let (e1, p1, step) = v2_next(exit, phase, Ok(a[0]));
        assert((a + b)[0] == a[0]);
        assert((a + b).drop_first() =~= a.drop_first() + b);
        lemma_feed_append(e1, p1, a.drop_first(), b, channel);
        match step {
            ShellV2StepView::Output(c, v) => {
                let x = v2_feed(e1, p1, a.drop_first());
                let y = v2_feed(x.0, x.1, b);
                assert(v + (x.2 + y.2) =~= (v + x.2) + y.2);
                let cx = v2_channel_feed(e1, p1, a.drop_first(), channel);
                let cy = v2_channel_feed(x.0, x.1, b, channel);
                assert(v + (cx + cy) =~= (v + cx) + cy);
            },
            _ => {},
        }
    }
}

/// The pieces of a payload reach its channel whole and in order, and nothing reaches the
/// other channels.
proof fn lemma_payload_on_its_channel(exit: Option<u8>, c: ShellChannel, rem: usize, reads: Seq<Seq<u8>>, channel: ShellChannel)
    requires
        rem > 0,
        forall|i: int| 0 <= i < reads.len() ==> (#[trigger] reads[i]).len() > 0,
        total_len(reads) == rem,
    ensures
        v2_channel_feed(exit, ShellV2Phase::Payload(c, rem), reads, channel) == if c == channel {
            joined(reads)
        } else {
            Seq::<u8>::empty()
        },
    decreases reads.len(),
{
    assert(reads.len() > 0);
    let r0 = reads[0];
    let rest = reads.drop_first();
    assert(r0.len() > 0);
    if rest.len() == 0 {
        assert(total_len(rest) == 0);
        assert(v2_channel_feed(exit, ShellV2Phase::Header, rest, channel) == Seq::<u8>::empty());
        assert(joined(rest) == Seq::<u8>::empty());
        assert(joined(reads) =~= r0);
        assert(r0 + Seq::<u8>::empty() =~= r0);
    } else {
        assert(forall|i: int| 0 <= i < rest.len() ==> rest[i] == reads[i + 1]);
        assert(rest[0].len() > 0);
        assert(total_len(rest) > 0);
        let rem2 = (rem - r0.len()) as usize;
        lemma_payload_on_its_channel(exit, c, rem2, rest, channel);
        assert(joined(reads) == r0 + joined(rest));
    }
}

/// A data packet of the standard output or error hands out its payload on its own channel
/// and nothing on the others, however the stream splits the payload, and leaves the
/// session waiting for the next header with its exit status unchanged.
proof fn lemma_packet_routed(exit: Option<u8>, c: u8, pieces: Seq<Seq<u8>>, channel: ShellChannel)
    requires
        c == 1 || c == 2,
        total_len(pieces) <= u32::MAX,
        forall|i: int| 0 <= i < pieces.len() ==> (#[trigger] pieces[i]).len() > 0,
    ensures
        v2_feed(exit, ShellV2Phase::Header, packet_reads(c, pieces)) == (exit, ShellV2Phase::Header, joined(pieces)),
        v2_result(exit, ShellV2Phase::Header, packet_reads(c, pieces)) is None,
        v2_channel_feed(exit, ShellV2Phase::Header, packet_reads(c, pieces), channel) == if channel_of(c) == Some(
            channel,
        ) {
            joined(pieces)
        } else {
            Seq::<u8>::empty()
        },
{
    let n = total_len(pieces);
    let h = seq![c] + le_bytes(n, 4);
    crate::wire::lemma_pow256_4();
    crate::wire::lemma_le_roundtrip(n, 4);
    assert(h.subrange(1, 5) =~= le_bytes(n, 4));
    assert(h[0] == c);
    let ch = if c == 1 { ShellChannel::Stdout } else { ShellChannel::Stderr };
    assert(channel_of(c) == Some(ch));
    let reads = packet_reads(c, pieces);
    assert(reads[0] == h);
    assert(reads.drop_first() =~= pieces);
    if pieces.len() == 0 {
        assert(n == 0);
        assert(v2_next(exit, ShellV2Phase::Header, Ok(h)) == (exit, ShellV2Phase::Header, ShellV2StepView::Continue));
        assert(v2_feed(exit, ShellV2Phase::Header, pieces) == (exit, ShellV2Phase::Header, Seq::<u8>::empty()));
        assert(v2_channel_feed(exit, ShellV2Phase::Header, pieces, channel) == Seq::<u8>::empty());
        assert(joined(pieces) =~= Seq::<u8>::empty());
        assert(v2_result(exit, ShellV2Phase::Header, pieces) is None);
    } else {
        assert(pieces[0].len() > 0);
        assert(n > 0) by {
            assert(n == pieces[0].len() + total_len(pieces.drop_first()));
        }
        let rem = n as usize;
        assert(v2_next(exit, ShellV2Phase::Header, Ok(h)) == (exit, ShellV2Phase::Payload(ch, rem), ShellV2StepView::Continue));
        lemma_payload_delivered_whole(exit, ch, rem, pieces);
        lemma_payload_on_its_channel(exit, ch, rem, pieces, channel);
        assert(v2_result(exit, ShellV2Phase::Payload(ch, rem), pieces) is None);
    }
}

/// Data packets of the standard output and error, their payloads split into reads in any
/// way: every payload reaches its own channel's sink, whole and in stream order, and all of
/// them together reach the output in stream order; the session then waits for the next
/// header with its exit status unchanged.
pub proof fn lemma_payloads_routed_in_order(exit: Option<u8>, packets: Seq<(u8, Seq<Seq<u8>>)>)
    requires
        forall|i: int| 0 <= i < packets.len() ==> (#[trigger] packets[i]).0 == 1 || packets[i].0 == 2,
        forall|i: int| 0 <= i < packets.len() ==> total_len((#[trigger] packets[i]).1) <= u32::MAX,
        forall|i: int, j: int|
            0 <= i < packets.len() && 0 <= j < packets[i].1.len() ==> (#[trigger] packets[i].1[j]).len() > 0,
    ensures
        v2_feed(exit, ShellV2Phase::Header, packets_reads(packets)) == (exit, ShellV2Phase::Header, all_payloads(packets)),
        v2_result(exit, ShellV2Phase::Header, packets_reads(packets)) is None,
        v2_channel_feed(exit, ShellV2Phase::Header, packets_reads(packets), ShellChannel::Stdout) == payloads_on(packets, 1),
        v2_channel_feed(exit, ShellV2Phase::Header, packets_reads(packets), ShellChannel::Stderr) == payloads_on(packets, 2),
    decreases packets.len(),
{
    if packets.len() == 0 {
    } else {
        let (c, pieces) = packets[0];
        let rest = packets.drop_first();
        assert forall|i: int| 0 <= i < rest.len() implies (#[trigger] rest[i]).0 == 1 || rest[i].0 == 2 by {
            assert(rest[i] == packets[i + 1]);
        }
        assert forall|i: int| 0 <= i < rest.len() implies total_len((#[trigger] rest[i]).1) <= u32::MAX by {
            assert(rest[i] == packets[i + 1]);
        }
        assert forall|i: int, j: int| 0 <= i < rest.len() && 0 <= j < rest[i].1.len() implies (
        #[trigger] rest[i].1[j]).len() > 0 by {
            assert(rest[i] == packets[i + 1]);
            assert(packets[i + 1].1[j].len() > 0);
        }
        assert forall|j: int| 0 <= j < pieces.len() implies (#[trigger] pieces[j]).len() > 0 by {
            assert(packets[0].1[j].len() > 0);
        }
        lemma_payloads_routed_in_order(exit, rest);
        lemma_packet_routed(exit, c, pieces, ShellChannel::Stdout);
        lemma_packet_routed(exit, c, pieces, ShellChannel::Stderr);
        let first = packet_reads(c, pieces);
        let others = packets_reads(rest);
        lemma_feed_append(exit, ShellV2Phase::Header, first, others, ShellChannel::Stdout);
        lemma_feed_append(exit, ShellV2Phase::Header, first, others, ShellChannel::Stderr);
        if c == 1 {
            assert(Seq::<u8>::empty() + payloads_on(rest, 2) =~= payloads_on(rest, 2));
        } else {
            assert(Seq::<u8>::empty() + payloads_on(rest, 1) =~= payloads_on(rest, 1));
        }
    }
}

/// A packet of size zero, on any channel, is skipped: inserted between packets, or after
/// the session has ended, it changes neither how the session ends, nor its exit status and
/// phase, nor the bytes handed out on any channel.
pub proof fn lemma_empty_packet_skipped(
    exit: Option<u8>,
    phase: ShellV2Phase,
    a: Seq<Seq<u8>>,
    b: Seq<Seq<u8>>,
    c: u8,
    channel: ShellChannel,
)
    requires
        c == 1 || c == 2 || c == 3,
        v2_result(exit, phase, a) is Some || v2_feed(exit, phase, a).1 == ShellV2Phase::Header,
    ensures
        v2_feed(exit, phase, a + seq![seq![c, 0u8, 0, 0, 0]] + b) == v2_feed(exit, phase, a + b),
        v2_result(exit, phase, a + seq![seq![c, 0u8, 0, 0, 0]] + b) == v2_result(exit, phase, a + b),
        v2_channel_feed(exit, phase, a + seq![seq![c, 0u8, 0, 0, 0]] + b, channel) == v2_channel_feed(
            exit,
            phase,
            a + b,
            channel,
        ),
{
    let z = seq![c, 0u8, 0, 0, 0];
    let zb = seq![z] + b;
    assert(a + seq![z] + b =~= a + zb);
    lemma_feed_append(exit, phase, a, zb, channel);
    lemma_feed_append(exit, phase, a, b, channel);
    if v2_result(exit, phase, a) is None {
        let (e1, p1, _) = v2_feed(exit, phase, a);
        let s = z.subrange(1, 5);
        assert(s =~= seq![0u8, 0, 0, 0]);
        assert(s.drop_first() =~= seq![0u8, 0, 0]);
        assert(s.drop_first().drop_first() =~= seq![0u8, 0]);
        assert(s.drop_first().drop_first().drop_first() =~= seq![0u8]);
        assert(s.drop_first().drop_first().drop_first().drop_first() =~= Seq::<u8>::empty());
        assert(le_value(s.drop_first().drop_first().drop_first().drop_first()) == 0);
        assert(le_value(s.drop_first().drop_first().drop_first()) == 0);
        assert(le_value(s.drop_first().drop_first()) == 0);
        assert(le_value(s.drop_first()) == 0);
        assert(le_value(s) == 0);
        assert(z[0] == c);
        assert(channel_of(c) is Some);
        assert(v2_next(e1, p1, Ok(z)) == (e1, p1, ShellV2StepView::Continue));
        assert(zb[0] == z);
        assert(zb.drop_first() =~= b);
    }
}

/// In the payload phase a session asks for at most the payload bytes still due (and at
/// most `BUFFER_SIZE`, and at least one while any is due); so whatever the stream hands
/// back to that read, the step gives out at most those bytes, never any of the next
/// packet.
pub proof fn lemma_payload_read_within_packet(
    exit: Option<u8>,
    c: ShellChannel,
    rem: usize,
    r: core::result::Result<Seq<u8>, AdbErrorView>,
)
    requires
        read_fits(read_for(ShellV2Phase::Payload(c, rem)), r),
    ensures
        read_for(ShellV2Phase::Payload(c, rem)) matches ReadRequest::UpTo(m) && m <= rem && m <= BUFFER_SIZE && (rem
            > 0 ==> m > 0),
        v2_next(exit, ShellV2Phase::Payload(c, rem), r).2 matches ShellV2StepView::Output(_, v) ==> v.len() <= rem,
        r matches Ok(v) ==> v.len() <= rem,
{
}

/// A packet header whose channel byte is none of stdout (1), stderr (2) and exit status
/// (3) ends the session with the I/O error `Invalid channel` of kind `InvalidData`, hands
/// nothing out, and leaves the exit status as it was.
pub proof fn lemma_unknown_channel_fails(exit: Option<u8>, h: Seq<u8>)
    requires
        h.len() == 5,
        h[0] != 1 && h[0] != 2 && h[0] != 3,
    ensures
        v2_next(exit, ShellV2Phase::Header, Ok(h)) == (exit, ShellV2Phase::Header, ShellV2StepView::Done(
            Err(AdbErrorView::IO(IoErrorKind::InvalidData, "Invalid channel"@)),
        )),
        v2_result(exit, ShellV2Phase::Header, seq![h]) == Some(
            Err::<Option<u8>, AdbErrorView>(AdbErrorView::IO(IoErrorKind::InvalidData, "Invalid channel"@)),
        ),
        v2_feed(exit, ShellV2Phase::Header, seq![h]) == (exit, ShellV2Phase::Header, Seq::<u8>::empty()),
{
    assert(seq![h][0] == h);
}

/// Where a session's output goes: the standard error goes to the error sink where there
/// is one, else to the output sink.
pub fn writes_to_stderr(channel: ShellChannel, has_stderr: bool) -> (r: bool)
    ensures
        r == (channel == ShellChannel::Stderr && has_stderr),
{
    channel == ShellChannel::Stderr && has_stderr
}

} // verus!
