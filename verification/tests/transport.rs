use std::collections::VecDeque;
use std::sync::{Arc, Mutex};

use adb_client::models::{ADBCommand, ADBHostCommand, ADBLocalCommand, SyncCommand};
use adb_client::stream_transport::{ReadWrite, StreamTransport};
use adb_client::{IoError, IoErrorKind, RustADBError};

struct Mock {
    input: VecDeque<u8>,
    output: Arc<Mutex<Vec<u8>>>,
}

impl ReadWrite for Mock {
    fn read_exact(&mut self, n: usize) -> Result<Vec<u8>, IoError> {
        if self.input.len() < n {
            return Err(IoError { kind: IoErrorKind::UnexpectedEof, message: "eof".to_string() });
        }
        Ok(self.input.drain(..n).collect())
    }

    fn read(&mut self, max: usize) -> Result<Vec<u8>, IoError> {
        let n = max.min(self.input.len());
        Ok(self.input.drain(..n).collect())
    }

    fn write_all(&mut self, buf: &[u8]) -> Result<(), IoError> {
        self.output.lock().unwrap().extend_from_slice(buf);
        Ok(())
    }
}

fn transport(input: &[u8]) -> (StreamTransport, Arc<Mutex<Vec<u8>>>) {
    let output = Arc::new(Mutex::new(Vec::new()));
    let mut t = StreamTransport::new();
    t.connect(Box::new(Mock { input: input.iter().copied().collect(), output: output.clone() }));
    (t, output)
}

#[test]
fn request_is_sent_framed_and_okay_grants_it() {
    let (mut t, out) = transport(b"OKAY");
    t.send_adb_request(&ADBCommand::Host(ADBHostCommand::TransportSerial("abc".to_string()))).unwrap();
    assert_eq!(*out.lock().unwrap(), b"0012host:transport:abc".to_vec());
}

#[test]
fn fail_carries_the_server_message() {
    let (mut t, _) = transport(b"FAIL0010device not found");
    match t.send_adb_request(&ADBCommand::Host(ADBHostCommand::TransportAny)) {
        Err(RustADBError::ADBRequestFailed(m)) => assert_eq!(m, "device not found"),
        other => panic!("unexpected {:?}", other),
    }
}

#[test]
fn fail_with_empty_message() {
    let (mut t, _) = transport(b"FAIL0000");
    match t.send_adb_request(&ADBCommand::Host(ADBHostCommand::TransportAny)) {
        Err(RustADBError::ADBRequestFailed(m)) => assert_eq!(m, ""),
        other => panic!("unexpected {:?}", other),
    }
}

#[test]
fn fail_message_that_is_not_text() {
    let (mut t, _) = transport(b"FAIL0002\xff\xfe");
    assert!(matches!(t.read_adb_response(), Err(RustADBError::Utf8StringError)));
}

#[test]
fn fail_with_bad_length() {
    let (mut t, _) = transport(b"FAILxyz!");
    assert!(matches!(t.read_adb_response(), Err(RustADBError::ParseIntError)));
}

#[test]
fn unknown_status() {
    let (mut t, _) = transport(b"WAIT");
    match t.read_adb_response() {
        Err(RustADBError::UnknownResponseType(s)) => assert_eq!(s, "WAIT"),
        other => panic!("unexpected {:?}", other),
    }
}

#[test]
fn truncated_answer_is_an_io_error() {
    let (mut t, _) = transport(b"OK");
    match t.read_adb_response() {
        Err(RustADBError::IOError(e)) => assert_eq!(e.kind, IoErrorKind::UnexpectedEof),
        other => panic!("unexpected {:?}", other),
    }
}

#[test]
fn proxy_connection_reads_the_body() {
    let (mut t, out) = transport(b"OKAY000bshell_v2,cmd");
    let body = t.proxy_connection(&ADBCommand::Host(ADBHostCommand::HostFeatures), true).unwrap();
    assert_eq!(body, b"shell_v2,cmd".to_vec()[..0xb].to_vec());
    assert_eq!(*out.lock().unwrap(), b"000dhost:features".to_vec());
}

#[test]
fn proxy_connection_without_response_reads_nothing_more() {
    let (mut t, _) = transport(b"OKAYextra");
    let body = t
        .proxy_connection(&ADBCommand::Local(ADBLocalCommand::ForwardRemoveAll), false)
        .unwrap();
    assert!(body.is_empty());
    assert_eq!(t.read_exact(5).unwrap(), b"extra".to_vec());
}

#[test]
fn proxy_connection_with_empty_body() {
    let (mut t, _) = transport(b"OKAY0000");
    let body = t.proxy_connection(&ADBCommand::Host(ADBHostCommand::ListForward), true).unwrap();
    assert!(body.is_empty());
}

#[test]
fn disconnected_transport_refuses_every_exchange() {
    let (mut t, out) = transport(b"OKAY");
    t.disconnect().unwrap();
    for r in [
        t.send_adb_request(&ADBCommand::Host(ADBHostCommand::TransportAny)),
        t.send_sync_request(&SyncCommand::Send),
        t.write_all(b"x"),
    ] {
        match r {
            Err(RustADBError::IOError(e)) => assert_eq!(e.kind, IoErrorKind::NotConnected),
            other => panic!("unexpected {:?}", other),
        }
    }
    assert!(matches!(t.get_body_length(), Err(RustADBError::IOError(_))));
    assert!(out.lock().unwrap().is_empty());
}

#[test]
fn new_transport_is_not_connected() {
    let mut t = StreamTransport::new();
    match t.read_exact(1) {
        Err(RustADBError::IOError(e)) => assert_eq!(e.kind, IoErrorKind::NotConnected),
        other => panic!("unexpected {:?}", other),
    }
}

#[test]
fn lengths_in_both_encodings() {
    let (mut t, _) = transport(&[0x10, 0x00, 0x00, 0x00, b'0', b'0', b'1', b'0']);
    assert_eq!(t.get_body_length().unwrap(), 16);
    assert_eq!(t.get_hex_body_length().unwrap(), 16);
}

#[test]
fn sync_request_is_its_word() {
    let (mut t, out) = transport(b"");
    t.send_sync_request(&SyncCommand::Send).unwrap();
    assert_eq!(*out.lock().unwrap(), b"SEND".to_vec());
}

#[test]
fn transport_description() {
    assert_eq!(StreamTransport::new().debug_text(), "StreamTransport { connected: false }");
    let (t, _) = transport(b"");
    assert_eq!(t.debug_text(), "StreamTransport { connected: true }");
}
