use std::collections::VecDeque;
use std::sync::{Arc, Mutex};

use adb_client::models::HostFeatures;
use adb_client::stream_device::{transport_from, ADBStreamDevice, StreamOpener};
use adb_client::stream_transport::ReadWrite;
use adb_client::{IoError, IoErrorKind, RustADBError};

struct Mock {
    input: VecDeque<u8>,
    output: Arc<Mutex<Vec<u8>>>,
}

impl ReadWrite for Mock {
    fn read_exact(&mut self, n: usize) -> Result<Vec<u8>, IoError> {
        if self.input.len() < n {
            return Err(IoError { kind: IoErrorKind::UnexpectedEof, message: "eof".to_string() });
        }
        Ok(self.input.drain(..n).collect())
    }

    fn read(&mut self, max: usize) -> Result<Vec<u8>, IoError> {
        let n = max.min(self.input.len());
        Ok(self.input.drain(..n).collect())
    }

    fn write_all(&mut self, buf: &[u8]) -> Result<(), IoError> {
        self.output.lock().unwrap().extend_from_slice(buf);
        Ok(())
    }
}

/// Hands out one scripted stream per call, and keeps what each was sent.
struct Opener {
    scripts: Mutex<VecDeque<Vec<u8>>>,
    sent: Arc<Mutex<Vec<Arc<Mutex<Vec<u8>>>>>>,
}

impl StreamOpener for Opener {
    fn open(&self) -> Result<Box<dyn ReadWrite>, String> {
        let script = self.scripts.lock().unwrap().pop_front().ok_or_else(|| "no more streams".to_string())?;
        let output = Arc::new(Mutex::new(Vec::new()));
        self.sent.lock().unwrap().push(output.clone());
        Ok(Box::new(Mock { input: script.into_iter().collect(), output }))
    }
}

fn device(scripts: &[&[u8]]) -> (ADBStreamDevice, Arc<Mutex<Vec<Arc<Mutex<Vec<u8>>>>>>) {
    let sent = Arc::new(Mutex::new(Vec::new()));
    let opener = Opener {
        scripts: Mutex::new(scripts.iter().map(|s| s.to_vec()).collect()),
        sent: sent.clone(),
    };
    (ADBStreamDevice::new("R58M".to_string(), Box::new(opener)), sent)
}

fn sent_on(sent: &Arc<Mutex<Vec<Arc<Mutex<Vec<u8>>>>>>, i: usize) -> String {
    String::from_utf8(sent.lock().unwrap()[i].lock().unwrap().clone()).unwrap()
}

#[test]
fn forward_binds_then_forwards() {
    let (d, sent) = device(&[b"OKAYOKAY"]);
    d.forward("tcp:8080".to_string(), "tcp:9090".to_string()).unwrap();
    assert_eq!(sent_on(&sent, 0), "0013host:transport:R58M001ehost:forward:tcp:9090;tcp:8080");
}

#[test]
fn forward_remove_and_remove_all() {
    let (d, sent) = device(&[b"OKAYOKAY", b"OKAYOKAY"]);
    d.forward_remove("tcp:9090".to_string()).unwrap();
    d.forward_remove_all().unwrap();
    assert_eq!(sent_on(&sent, 0), "0013host:transport:R58M0019host:killforward:tcp:9090");
    assert_eq!(sent_on(&sent, 1), "0013host:transport:R58M0014host:killforward-all");
}

#[test]
fn forward_refused_by_the_server() {
    let (d, _) = device(&[b"OKAYFAIL0009cannot do"]);
    match d.forward("a".to_string(), "b".to_string()) {
        Err(RustADBError::ADBRequestFailed(m)) => assert_eq!(m, "cannot do"),
        other => panic!("unexpected {:?}", other),
    }
}

#[test]
fn unknown_device_fails_at_the_binding() {
    let (d, sent) = device(&[b"FAIL000edevice offline"]);
    match d.forward_remove_all() {
        Err(RustADBError::ADBRequestFailed(m)) => assert_eq!(m, "device offline"),
        other => panic!("unexpected {:?}", other),
    }
    assert_eq!(sent_on(&sent, 0), "0013host:transport:R58M");
}

#[test]
fn opener_failure_is_an_io_error() {
    let (d, _) = device(&[]);
    match d.forward_remove_all() {
        Err(RustADBError::IOError(e)) => {
            assert_eq!(e.kind, IoErrorKind::Other);
            assert_eq!(e.message, "no more streams");
        }
        other => panic!("unexpected {:?}", other),
    }
}

#[test]
fn forward_list_returns_the_text() {
    let (d, sent) = device(&[b"OKAYOKAY0017R58M tcp:9090 tcp:8080\n"]);
    assert_eq!(d.forward_list().unwrap(), "R58M tcp:9090 tcp:8080\n");
    assert_eq!(sent_on(&sent, 0), "0013host:transport:R58M0011host:list-forward");
}

#[test]
fn forward_list_that_is_not_text() {
    let (d, _) = device(&[b"OKAYOKAY0001\xff"]);
    match d.forward_list() {
        Err(RustADBError::IOError(e)) => {
            assert_eq!(e.kind, IoErrorKind::Other);
            assert_eq!(e.message, "invalid utf-8 sequence of 1 bytes from index 0");
        }
        other => panic!("unexpected {:?}", other),
    }
}

#[test]
fn host_features_are_parsed() {
    let (d, sent) = device(&[b"OKAYOKAY0017shell_v2,cmd,stat_v2,ls"]);
    assert_eq!(d.host_features().unwrap(), vec![HostFeatures::ShellV2, HostFeatures::Cmd]);
    assert_eq!(sent_on(&sent, 0), "0013host:transport:R58M000dhost:features");
}

#[test]
fn shell_sessions_send_their_requests() {
    let (d, sent) = device(&[b"OKAYOKAYhello", b"OKAYOKAY", b"OKAYOKAY"]);
    let mut t = d.open_stream().unwrap();
    d.begin_shell_command_v1(&mut t, "echo hello".to_string()).unwrap();
    assert_eq!(t.read(100).unwrap(), b"hello".to_vec());
    let mut t2 = d.open_stream().unwrap();
    d.begin_shell_command_v2(&mut t2, "id".to_string(), Some("xterm".to_string())).unwrap();
    let mut t3 = d.open_stream().unwrap();
    d.begin_shell_command_v2(&mut t3, "id".to_string(), None).unwrap();
    assert_eq!(sent_on(&sent, 0), "0013host:transport:R58M0014shell,raw:echo hello");
    assert_eq!(sent_on(&sent, 1), "0013host:transport:R58M001ashell,v2,TERM=xterm,raw:id");
    assert_eq!(sent_on(&sent, 2), "0013host:transport:R58M000fshell,v2,raw:id");
}

#[test]
fn refused_selection_sends_no_shell_request() {
    let (d, sent) = device(&[b"FAIL0007offline"]);
    let mut t = d.open_stream().unwrap();
    match d.begin_shell_command_v2(&mut t, "ls".to_string(), None) {
        Err(RustADBError::ADBRequestFailed(m)) => assert_eq!(m, "offline"),
        other => panic!("unexpected {:?}", other),
    }
    assert_eq!(sent_on(&sent, 0), "0013host:transport:R58M");
}

#[test]
fn push_opens_a_send() {
    let (d, sent) = device(&[b"OKAYOKAY"]);
    let mut t = d.open_stream().unwrap();
    d.begin_push(&mut t, "/sdcard/a.txt").unwrap();
    let out = sent.lock().unwrap()[0].lock().unwrap().clone();
    let mut expected = b"0013host:transport:R58M0005sync:SEND".to_vec();
    expected.extend_from_slice(&[18, 0, 0, 0]);
    expected.extend_from_slice(b"/sdcard/a.txt,0777");
    assert_eq!(out, expected);
}

#[test]
fn push_refused_by_the_sync_service() {
    let (d, sent) = device(&[b"OKAYFAIL0004nope"]);
    let mut t = d.open_stream().unwrap();
    match d.begin_push(&mut t, "/a") {
        Err(RustADBError::ADBRequestFailed(m)) => assert_eq!(m, "nope"),
        other => panic!("unexpected {:?}", other),
    }
    assert_eq!(sent_on(&sent, 0), "0013host:transport:R58M0005sync:");
}

#[test]
fn steps_on_a_given_transport() {
    let (d, sent) = device(&[b"OKAYOKAY", b"OKAYOKAY000bshell_v2,ls"]);
    let mut t = d.open_stream().unwrap();
    d.forward_on(&mut t, "tcp:1".to_string(), "tcp:2".to_string()).unwrap();
    assert_eq!(sent_on(&sent, 0), "0013host:transport:R58M0018host:forward:tcp:2;tcp:1");
    let mut t2 = d.open_stream().unwrap();
    assert_eq!(d.host_features_on(&mut t2).unwrap(), vec![HostFeatures::ShellV2]);
}

#[test]
fn stream_ending_inside_the_answer_is_an_io_error() {
    let (d, _) = device(&[b"OKAYOKAY0010short"]);
    let mut t = d.open_stream().unwrap();
    match d.forward_list_on(&mut t) {
        Err(RustADBError::IOError(e)) => assert_eq!(e.kind, IoErrorKind::UnexpectedEof),
        other => panic!("unexpected {:?}", other),
    }
}

#[test]
fn opener_result_as_a_transport() {
    match transport_from(Err("refused".to_string())) {
        Err(RustADBError::IOError(e)) => {
            assert_eq!(e.kind, IoErrorKind::Other);
            assert_eq!(e.message, "refused");
        }
        other => panic!("unexpected {:?}", other.is_ok()),
    }
    let stream: Box<dyn ReadWrite> =
        Box::new(Mock { input: b"OKAY".iter().copied().collect(), output: Arc::new(Mutex::new(Vec::new())) });
    let mut t = transport_from(Ok(stream)).unwrap();
    assert_eq!(t.read_exact(4).unwrap(), b"OKAY".to_vec());
}

#[test]
fn device_description() {
    let (d, _) = device(&[]);
    assert_eq!(d.debug_text(), "ADBStreamDevice { identifier: Some(\"R58M\"), transport_id: None }");
    let sent = Arc::new(Mutex::new(Vec::new()));
    let opener = Opener { scripts: Mutex::new(VecDeque::new()), sent };
    let quoted = ADBStreamDevice::new("a\"b".to_string(), Box::new(opener));
    assert_eq!(quoted.debug_text(), format!("ADBStreamDevice {{ identifier: Some({:?}), transport_id: None }}", "a\"b"));
}
