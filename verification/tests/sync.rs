use std::collections::VecDeque;
use std::sync::{Arc, Mutex};

use adb_client::stream_transport::{ReadWrite, StreamTransport};
use adb_client::sync::{data_frame, done_frame, finish_send_at, send_data, send_header_frame, ContentFramer};
use adb_client::{IoError, IoErrorKind, RustADBError};

struct Mock {
    input: VecDeque<u8>,
    output: Arc<Mutex<Vec<u8>>>,
}

impl ReadWrite for Mock {
    fn read_exact(&mut self, n: usize) -> Result<Vec<u8>, IoError> {
        if self.input.len() < n {
            return Err(IoError { kind: IoErrorKind::UnexpectedEof, message: "eof".to_string() });
        }
        Ok(self.input.drain(..n).collect())
    }

    fn read(&mut self, max: usize) -> Result<Vec<u8>, IoError> {
        let n = max.min(self.input.len());
        Ok(self.input.drain(..n).collect())
    }

    fn write_all(&mut self, buf: &[u8]) -> Result<(), IoError> {
        self.output.lock().unwrap().extend_from_slice(buf);
        Ok(())
    }
}

fn transport(input: &[u8]) -> (StreamTransport, Arc<Mutex<Vec<u8>>>) {
    let output = Arc::new(Mutex::new(Vec::new()));
    let mut t = StreamTransport::new();
    t.connect(Box::new(Mock { input: input.iter().copied().collect(), output: output.clone() }));
    (t, output)
}

#[test]
fn frames() {
    let header = send_header_frame("/a");
    assert_eq!(&header[..4], &[7, 0, 0, 0]);
    assert_eq!(&header[4..], b"/a,0777");
    let data = data_frame(b"xyz").unwrap();
    assert_eq!(data, b"DATA\x03\x00\x00\x00xyz".to_vec());
    assert_eq!(done_frame(0x0102030405060708), b"DONE\x08\x07\x06\x05\x04\x03\x02\x01".to_vec());
}

#[test]
fn send_finished_and_granted() {
    let (mut t, out) = transport(b"OKAY");
    send_data(&mut t, b"hello").unwrap();
    finish_send_at(&mut t, Some(1)).unwrap();
    let mut expected = b"DATA\x05\x00\x00\x00hello".to_vec();
    expected.extend_from_slice(b"DONE\x01\x00\x00\x00\x00\x00\x00\x00");
    assert_eq!(*out.lock().unwrap(), expected);
}

#[test]
fn send_refused_with_a_message() {
    let (mut t, _) = transport(b"FAIL\x0b\x00\x00\x00no such dir");
    match finish_send_at(&mut t, Some(5)) {
        Err(RustADBError::ADBRequestFailed(m)) => assert_eq!(m, "no such dir"),
        other => panic!("unexpected {:?}", other),
    }
}

#[test]
fn send_without_a_time_sends_nothing() {
    let (mut t, out) = transport(b"OKAY");
    match finish_send_at(&mut t, None) {
        Err(RustADBError::ADBRequestFailed(m)) => assert_eq!(m, "SystemTime before UNIX EPOCH!"),
        other => panic!("unexpected {:?}", other),
    }
    assert!(out.lock().unwrap().is_empty());
}

#[test]
fn send_answered_with_an_unknown_status() {
    let (mut t, _) = transport(b"DONE");
    assert!(matches!(finish_send_at(&mut t, Some(5)), Err(RustADBError::UnknownResponseType(s)) if s == "DONE"));
}

#[test]
fn empty_content_sends_no_frame() {
    let (mut t, out) = transport(b"");
    let mut f = ContentFramer::new();
    f.feed(&mut t, b"").unwrap();
    f.finish(&mut t).unwrap();
    assert!(out.lock().unwrap().is_empty());
}

#[test]
fn content_is_cut_into_full_frames_then_the_rest() {
    let (mut t, out) = transport(b"");
    let content: Vec<u8> = (0..70000u32).map(|i| (i % 251) as u8).collect();
    let mut f = ContentFramer::new();
    f.feed(&mut t, &content[..1000]).unwrap();
    assert!(out.lock().unwrap().is_empty());
    f.feed(&mut t, &content[1000..66000]).unwrap();
    f.feed(&mut t, &content[66000..]).unwrap();
    f.finish(&mut t).unwrap();
    let mut expected = b"DATA".to_vec();
    expected.extend_from_slice(&65535u32.to_le_bytes());
    expected.extend_from_slice(&content[..65535]);
    expected.extend_from_slice(b"DATA");
    expected.extend_from_slice(&4465u32.to_le_bytes());
    expected.extend_from_slice(&content[65535..]);
    assert_eq!(*out.lock().unwrap(), expected);
}

#[test]
fn content_of_exactly_one_chunk_is_one_frame() {
    let (mut t, out) = transport(b"");
    let content = vec![7u8; 65535];
    let mut f = ContentFramer::new();
    f.feed(&mut t, &content).unwrap();
    f.finish(&mut t).unwrap();
    let written = out.lock().unwrap().clone();
    assert_eq!(written.len(), 8 + 65535);
    assert_eq!(&written[..8], b"DATA\xff\xff\x00\x00");
}
