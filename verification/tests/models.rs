use adb_client::models::{
    parse_host_features, use_shell_v2, ADBCommand, ADBHostCommand, ADBLocalCommand, HostFeatures, SyncCommand,
};
use adb_client::RustADBError;

fn text(c: ADBCommand) -> String {
    String::from_utf8(c.to_bytes()).unwrap()
}

#[test]
fn host_requests() {
    assert_eq!(text(ADBCommand::Host(ADBHostCommand::TransportAny)), "host:transport-any");
    assert_eq!(text(ADBCommand::Host(ADBHostCommand::TransportSerial("emulator-5554".to_string()))), "host:transport:emulator-5554");
    assert_eq!(text(ADBCommand::Host(ADBHostCommand::TransportId(17))), "host:transport-id:17");
    assert_eq!(text(ADBCommand::Host(ADBHostCommand::HostFeatures)), "host:features");
    assert_eq!(text(ADBCommand::Host(ADBHostCommand::DevicesLong)), "host:devices-l");
    assert_eq!(text(ADBCommand::Host(ADBHostCommand::ListForward)), "host:list-forward");
}

#[test]
fn device_requests() {
    assert_eq!(text(ADBCommand::Local(ADBLocalCommand::Sync)), "sync:");
    assert_eq!(text(ADBCommand::Local(ADBLocalCommand::ShellCommand("ls".to_string(), vec![]))), "shell,raw:ls");
    assert_eq!(
        text(ADBCommand::Local(ADBLocalCommand::ShellCommand(
            "ls -l".to_string(),
            vec!["v2".to_string(), "TERM=xterm".to_string()]
        ))),
        "shell,v2,TERM=xterm,raw:ls -l"
    );
    assert_eq!(
        text(ADBCommand::Local(ADBLocalCommand::Forward("tcp:5000".to_string(), "tcp:6000".to_string()))),
        "host:forward:tcp:6000;tcp:5000"
    );
    assert_eq!(text(ADBCommand::Local(ADBLocalCommand::ForwardRemove("tcp:6000".to_string()))), "host:killforward:tcp:6000");
    assert_eq!(text(ADBCommand::Local(ADBLocalCommand::ForwardRemoveAll)), "host:killforward-all");
}

#[test]
fn sync_words() {
    assert_eq!(SyncCommand::Send.to_bytes(), b"SEND".to_vec());
    assert_eq!(SyncCommand::Recv.to_bytes(), b"RECV".to_vec());
    assert_eq!(SyncCommand::List.to_bytes(), b"LIST".to_vec());
    assert_eq!(SyncCommand::Stat.to_bytes(), b"STAT".to_vec());
}

#[test]
fn features_are_read_from_a_comma_separated_list() {
    assert_eq!(parse_host_features(b"shell_v2,cmd,stat_v2"), vec![HostFeatures::ShellV2, HostFeatures::Cmd]);
    assert_eq!(parse_host_features(b"abb,cmd"), vec![HostFeatures::Cmd]);
    assert_eq!(parse_host_features(b""), vec![]);
    assert_eq!(parse_host_features(b",,shell_v2,"), vec![HostFeatures::ShellV2]);
    assert_eq!(parse_host_features(b"shell_v2x"), vec![]);
    assert_eq!(HostFeatures::from_bytes(b"cmd"), Some(HostFeatures::Cmd));
    assert_eq!(HostFeatures::from_bytes(b"shell"), None);
}

#[test]
fn shell_v2_is_used_only_when_advertised() {
    assert!(use_shell_v2(&Ok(vec![HostFeatures::ShellV2])));
    assert!(use_shell_v2(&Ok(vec![HostFeatures::Cmd])));
    assert!(!use_shell_v2(&Ok(vec![])));
    assert!(!use_shell_v2(&Err(RustADBError::ParseIntError)));
}
