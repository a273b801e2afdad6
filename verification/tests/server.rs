use std::collections::VecDeque;
use std::sync::{Arc, Mutex};

use adb_client::stream_server::{device_entries, ADBStreamServer};
use adb_client::stream_transport::ReadWrite;
use adb_client::{IoError, IoErrorKind, RustADBError};

struct Mock {
    input: VecDeque<u8>,
    output: Arc<Mutex<Vec<u8>>>,
}

impl ReadWrite for Mock {
    fn read_exact(&mut self, n: usize) -> Result<Vec<u8>, IoError> {
        if self.input.len() < n {
            return Err(IoError { kind: IoErrorKind::UnexpectedEof, message: "eof".to_string() });
        }
        Ok(self.input.drain(..n).collect())
    }

    fn read(&mut self, max: usize) -> Result<Vec<u8>, IoError> {
        let n = max.min(self.input.len());
        Ok(self.input.drain(..n).collect())
    }

    fn write_all(&mut self, buf: &[u8]) -> Result<(), IoError> {
        self.output.lock().unwrap().extend_from_slice(buf);
        Ok(())
    }
}

fn server(input: &[u8]) -> (ADBStreamServer, Arc<Mutex<Vec<u8>>>) {
    let output = Arc::new(Mutex::new(Vec::new()));
    let s = ADBStreamServer::new(Box::new(Mock { input: input.iter().copied().collect(), output: output.clone() }));
    (s, output)
}

#[test]
fn devices_long_lists_one_entry_per_line() {
    let body = b"emulator-5554 device product:sdk model:sdk device:generic transport_id:1\nR58M unauthorized usb:1-1 transport_id:2\n";
    let mut input = format!("OKAY{:04x}", body.len()).into_bytes();
    input.extend_from_slice(body);
    let (mut s, out) = server(&input);
    let entries = s.devices_long().unwrap();
    assert_eq!(entries.len(), 2);
    assert_eq!(entries[0], b"emulator-5554 device product:sdk model:sdk device:generic transport_id:1".to_vec());
    assert_eq!(entries[1], b"R58M unauthorized usb:1-1 transport_id:2".to_vec());
    assert_eq!(*out.lock().unwrap(), b"000ehost:devices-l".to_vec());
}

#[test]
fn devices_long_with_no_device() {
    let (mut s, _) = server(b"OKAY0000");
    assert!(s.devices_long().unwrap().is_empty());
}

#[test]
fn devices_long_refused() {
    let (mut s, _) = server(b"FAIL0004nope");
    assert!(matches!(s.devices_long(), Err(RustADBError::ADBRequestFailed(m)) if m == "nope"));
}

#[test]
fn entries_stop_at_the_first_empty_line() {
    assert_eq!(device_entries(b"a\nb\n\nc\n"), vec![b"a".to_vec(), b"b".to_vec()]);
    assert_eq!(device_entries(b"a"), vec![b"a".to_vec()]);
    assert_eq!(device_entries(b""), Vec::<Vec<u8>>::new());
    assert_eq!(device_entries(b"\na"), Vec::<Vec<u8>>::new());
}

#[test]
fn server_description() {
    let (s, _) = server(b"");
    assert_eq!(s.debug_text(), "ADBStreamServer");
}
