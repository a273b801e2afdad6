use std::collections::VecDeque;

use adb_client::stream_transport::ReadRequest;
use adb_client::shell::{
    shell_channel_from, shell_v1_decide, shell_v1_step, writes_to_stderr, ShellChannel, ShellV1Step,
    ShellV2Reader, ShellV2Step, BUFFER_SIZE,
};
use adb_client::stream_transport::{ReadWrite, StreamTransport};
use adb_client::{IoError, IoErrorKind, RustADBError};

struct Mock {
    input: VecDeque<u8>,
    end: IoErrorKind,
}

impl ReadWrite for Mock {
    fn read_exact(&mut self, n: usize) -> Result<Vec<u8>, IoError> {
        if self.input.len() < n {
            return Err(IoError { kind: self.end, message: "end".to_string() });
        }
        Ok(self.input.drain(..n).collect())
    }

    fn read(&mut self, max: usize) -> Result<Vec<u8>, IoError> {
        if self.input.is_empty() && self.end != IoErrorKind::UnexpectedEof {
            return Err(IoError { kind: self.end, message: "end".to_string() });
        }
        let n = max.min(self.input.len()).min(3);
        Ok(self.input.drain(..n).collect())
    }

    fn write_all(&mut self, _buf: &[u8]) -> Result<(), IoError> {
        Ok(())
    }
}

fn transport(input: &[u8], end: IoErrorKind) -> StreamTransport {
    let mut t = StreamTransport::new();
    t.connect(Box::new(Mock { input: input.iter().copied().collect(), end }));
    t
}

fn io(kind: IoErrorKind) -> RustADBError {
    RustADBError::IOError(IoError { kind, message: String::new() })
}

/// Runs a v2 session to its end, as a caller's loop would.
fn run_v2(input: &[u8], end: IoErrorKind, has_stderr: bool) -> (Vec<u8>, Vec<u8>, Result<Option<u8>, RustADBError>) {
    let mut t = transport(input, end);
    let mut reader = ShellV2Reader::new();
    let (mut out, mut err) = (Vec::new(), Vec::new());
    loop {
        match reader.step(&mut t) {
            ShellV2Step::Output(channel, bytes) => {
                if writes_to_stderr(channel, has_stderr) {
                    err.extend_from_slice(&bytes);
                } else {
                    out.extend_from_slice(&bytes);
                }
            }
            ShellV2Step::Continue => {}
            ShellV2Step::Done(r) => return (out, err, r),
        }
    }
}

fn packet(channel: u8, payload: &[u8]) -> Vec<u8> {
    let mut p = vec![channel];
    p.extend_from_slice(&(payload.len() as u32).to_le_bytes());
    p.extend_from_slice(payload);
    p
}

#[test]
fn v1_output_until_the_end() {
    let mut t = transport(b"hello", IoErrorKind::UnexpectedEof);
    let mut out = Vec::new();
    loop {
        match shell_v1_step(&mut t) {
            ShellV1Step::Output(b) => out.extend_from_slice(&b),
            ShellV1Step::Done(r) => {
                assert_eq!(r.unwrap(), None);
                break;
            }
        }
    }
    assert_eq!(out, b"hello".to_vec());
}

#[test]
fn v1_decisions() {
    assert!(matches!(shell_v1_decide(Ok(vec![])), ShellV1Step::Done(Ok(None))));
    assert!(matches!(shell_v1_decide(Ok(vec![1])), ShellV1Step::Output(v) if v == vec![1]));
    assert!(matches!(shell_v1_decide(Err(io(IoErrorKind::BrokenPipe))), ShellV1Step::Done(Ok(None))));
    assert!(matches!(shell_v1_decide(Err(io(IoErrorKind::UnexpectedEof))), ShellV1Step::Done(Ok(None))));
    assert!(matches!(
        shell_v1_decide(Err(io(IoErrorKind::Other))),
        ShellV1Step::Done(Err(RustADBError::IOError(IoError { kind: IoErrorKind::Other, .. })))
    ));
    let failure = RustADBError::IOError(IoError { kind: IoErrorKind::Interrupted, message: "stop".to_string() });
    match shell_v1_decide(Err(failure)) {
        ShellV1Step::Done(Err(RustADBError::IOError(e))) => {
            assert_eq!(e.kind, IoErrorKind::Interrupted);
            assert_eq!(e.message, "stop");
        }
        other => panic!("unexpected {:?}", other),
    }
}

#[test]
fn channels() {
    assert_eq!(shell_channel_from(1).unwrap(), ShellChannel::Stdout);
    assert_eq!(shell_channel_from(2).unwrap(), ShellChannel::Stderr);
    assert_eq!(shell_channel_from(3).unwrap(), ShellChannel::ExitStatus);
    match shell_channel_from(4) {
        Err(RustADBError::IOError(e)) => assert_eq!(e.kind, IoErrorKind::InvalidData),
        other => panic!("unexpected {:?}", other),
    }
}

#[test]
fn v2_output_errors_and_exit_status() {
    let mut input = packet(1, b"out1");
    input.extend(packet(2, b"err"));
    input.extend(packet(1, b"-out2"));
    input.extend(packet(3, &[7]));
    let (out, err, r) = run_v2(&input, IoErrorKind::UnexpectedEof, true);
    assert_eq!(out, b"out1-out2".to_vec());
    assert_eq!(err, b"err".to_vec());
    assert_eq!(r.unwrap(), None);
}

#[test]
fn v2_errors_go_to_stdout_without_an_error_sink() {
    let mut input = packet(2, b"oops");
    input.extend(packet(1, b"!"));
    let (out, err, _) = run_v2(&input, IoErrorKind::UnexpectedEof, false);
    assert_eq!(out, b"oops!".to_vec());
    assert!(err.is_empty());
}

#[test]
fn v2_exit_status_is_kept_until_a_payload_is_cut_short() {
    let mut input = packet(3, &[42]);
    input.extend_from_slice(&[1, 10, 0, 0, 0, b'a', b'b']);
    let (out, _, r) = run_v2(&input, IoErrorKind::UnexpectedEof, true);
    assert_eq!(out, b"ab".to_vec());
    assert_eq!(r.unwrap(), Some(42));
}

#[test]
fn v2_spurious_exit_packet() {
    let input = packet(3, &[1, 2]);
    let (_, _, r) = run_v2(&input, IoErrorKind::UnexpectedEof, true);
    match r {
        Err(RustADBError::ADBShellV2ParseError(m)) => {
            assert_eq!(m, "Spurious exit status packet with size of 2 (should be 1)")
        }
        other => panic!("unexpected {:?}", other),
    }
}

#[test]
fn v2_invalid_channel() {
    let input = packet(9, b"x");
    let (_, _, r) = run_v2(&input, IoErrorKind::UnexpectedEof, true);
    match r {
        Err(RustADBError::IOError(e)) => {
            assert_eq!(e.kind, IoErrorKind::InvalidData);
            assert_eq!(e.message, "Invalid channel");
        }
        other => panic!("unexpected {:?}", other),
    }
}

#[test]
fn v2_empty_packets_are_skipped() {
    let mut input = packet(1, b"");
    input.extend(packet(3, b""));
    input.extend(packet(1, b"z"));
    let (out, _, r) = run_v2(&input, IoErrorKind::BrokenPipe, true);
    assert_eq!(out, b"z".to_vec());
    assert_eq!(r.unwrap(), None);
}

#[test]
fn v2_other_error_while_reading_a_header() {
    let (_, _, r) = run_v2(&[1, 0], IoErrorKind::Other, true);
    assert!(matches!(r, Err(RustADBError::IOError(IoError { kind: IoErrorKind::Other, .. }))));
}

#[test]
fn v2_reader_asks_for_bounded_reads() {
    let mut reader = ShellV2Reader::new();
    assert_eq!(reader.next_read(), ReadRequest::Exact(5));
    let big = 200_000u32.to_le_bytes();
    let step = reader.on_read(Ok(vec![1, big[0], big[1], big[2], big[3]]));
    assert!(matches!(step, ShellV2Step::Continue));
    assert_eq!(reader.next_read(), ReadRequest::UpTo(BUFFER_SIZE));
    let step = reader.on_read(Ok(vec![0; BUFFER_SIZE]));
    assert!(matches!(step, ShellV2Step::Output(ShellChannel::Stdout, ref v) if v.len() == BUFFER_SIZE));
    assert_eq!(reader.next_read(), ReadRequest::UpTo(BUFFER_SIZE));
    let mut reader = ShellV2Reader::new();
    reader.on_read(Ok(vec![3, 1, 0, 0, 0]));
    assert_eq!(reader.next_read(), ReadRequest::Exact(1));
}

#[test]
fn routing_of_output() {
    assert!(writes_to_stderr(ShellChannel::Stderr, true));
    assert!(!writes_to_stderr(ShellChannel::Stderr, false));
    assert!(!writes_to_stderr(ShellChannel::Stdout, true));
}
