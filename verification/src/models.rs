//! The requests of the ADB protocol, the sync sub-protocol's commands, and the host
//! features a server advertises.
use vstd::prelude::*;
use vstd::utf8::encode_utf8;

use crate::wire::decimal_bytes;
use crate::wire::push_decimal;

verus! {

/// The UTF-8 bytes of a text.
pub open spec fn text(s: &str) -> Seq<u8> {
    encode_utf8(s@)
}

/// Requests that the ADB server answers itself.
#[derive(Debug)]
pub enum ADBHostCommand {
    /// Bind the connection to the only attached device.
    TransportAny,
    /// Bind the connection to the device with this serial.
    TransportSerial(String),
    /// Bind the connection to the device with this transport id.
    TransportId(u32),
    /// Ask which features the host supports.
    HostFeatures,
    /// List the attached devices, one line each with details.
    DevicesLong,
    /// List the port forwards.
    ListForward,
}

/// Requests for the device that the connection is bound to.
#[derive(Debug)]
pub enum ADBLocalCommand {
    /// Enter the file synchronisation sub-protocol.
    Sync,
    /// Run a command in a shell, with these options.
    ShellCommand(String, Vec<String>),
    /// Forward `local` (second) to `remote` (first).
    Forward(String, String),
    /// Remove the forward rule of this local endpoint.
    ForwardRemove(String),
    /// Remove every forward rule.
    ForwardRemoveAll,
}

/// A request of the ADB protocol.
#[derive(Debug)]
pub enum ADBCommand {
    Host(ADBHostCommand),
    Local(ADBLocalCommand),
}

/// The text of a host request.
pub open spec fn host_command_bytes(c: ADBHostCommand) -> Seq<u8> {
    match c {
        ADBHostCommand::TransportAny => text("host:transport-any"),
        ADBHostCommand::TransportSerial(serial) => text("host:transport:") + encode_utf8(serial@),
        ADBHostCommand::TransportId(id) => text("host:transport-id:") + decimal_bytes(id as nat),
        ADBHostCommand::HostFeatures => text("host:features"),
        ADBHostCommand::DevicesLong => text("host:devices-l"),
        ADBHostCommand::ListForward => text("host:list-forward"),
    }
}

/// The shell options, each preceded by a comma.
pub open spec fn shell_args_bytes(args: Seq<String>) -> Seq<u8>
    decreases args.len(),
{
    if args.len() == 0 {
        seq![]
    } else {
        shell_args_bytes(args.drop_last()) + text(",") + encode_utf8(args.last()@)
    }
}

/// The text of a device request.
pub open spec fn local_command_bytes(c: ADBLocalCommand) -> Seq<u8> {
    match c {
        ADBLocalCommand::Sync => text("sync:"),
        ADBLocalCommand::ShellCommand(command, args) => text("shell") + shell_args_bytes(args@) + text(",raw:")
            + encode_utf8(command@),
        ADBLocalCommand::Forward(remote, local) => text("host:forward:") + encode_utf8(local@) + text(";")
            + encode_utf8(remote@),
        ADBLocalCommand::ForwardRemove(local) => text("host:killforward:") + encode_utf8(local@),
        ADBLocalCommand::ForwardRemoveAll => text("host:killforward-all"),
    }
}

/// The text of a request.
pub open spec fn command_bytes(c: ADBCommand) -> Seq<u8> {
    match c {
        ADBCommand::Host(h) => host_command_bytes(h),
        ADBCommand::Local(l) => local_command_bytes(l),
    }
}

/// Encoding a text piece by piece is encoding it whole.
pub proof fn lemma_encode_utf8_concat(a: Seq<char>, b: Seq<char>)
    ensures
        encode_utf8(a + b) == encode_utf8(a) + encode_utf8(b),
    decreases a.len(),
{
    if a.len() == 0 {
        assert(a + b =~= b);
        assert(encode_utf8(a) + encode_utf8(b) =~= encode_utf8(b));
    } else {
        lemma_encode_utf8_concat(a.drop_first(), b);
        assert((a + b).drop_first() =~= a.drop_first() + b);
        assert((a + b)[0] == a[0]);
        assert(encode_utf8(a) + encode_utf8(b) =~= vstd::utf8::encode_scalar(a[0] as u32) + (encode_utf8(a.drop_first()) + encode_utf8(b)));
    }
}

fn push_text(out: &mut Vec<u8>, s: &str)
    ensures
        final(out)@ == old(out)@ + text(s),
{
    out.extend_from_slice(s.as_bytes());
}

impl ADBHostCommand {
    /// The request's text, as bytes.
    pub fn to_bytes(&self) -> (r: Vec<u8>)
        ensures
            r@ == host_command_bytes(*self),
    {
        let mut out: Vec<u8> = Vec::new();
        match self {
            ADBHostCommand::TransportAny => push_text(&mut out, "host:transport-any"),
            ADBHostCommand::TransportSerial(serial) => {
                push_text(&mut out, "host:transport:");
                push_text(&mut out, serial.as_str());
            },
            ADBHostCommand::TransportId(id) => {
                push_text(&mut out, "host:transport-id:");
                push_decimal(&mut out, *id as u64);
            },
            ADBHostCommand::HostFeatures => push_text(&mut out, "host:features"),
            ADBHostCommand::DevicesLong => push_text(&mut out, "host:devices-l"),
            ADBHostCommand::ListForward => push_text(&mut out, "host:list-forward"),
        }
        out
    }
}

impl ADBLocalCommand {
    /// The request's text, as bytes.
    pub fn to_bytes(&self) -> (r: Vec<u8>)
        ensures
            r@ == local_command_bytes(*self),
    {
        let mut out: Vec<u8> = Vec::new();
        match self {
            ADBLocalCommand::Sync => push_text(&mut out, "sync:"),
            ADBLocalCommand::ShellCommand(command, args) => {
                push_text(&mut out, "shell");
                let ghost start = out@;
                let mut i: usize = 0;
                while i < args.len()
                    invariant
                        i <= args@.len(),
                        out@ == start + shell_args_bytes(args@.take(i as int)),
                    decreases args@.len() - i,
                {
                    push_text(&mut out, ",");
                    push_text(&mut out, args[i].as_str());
                    assert(args@.take((i + 1) as int).drop_last() =~= args@.take(i as int));
                    i = i + 1;
                }
                assert(args@.take(args@.len() as int) =~= args@);
                push_text(&mut out, ",raw:");
                push_text(&mut out, command.as_str());
            },
            ADBLocalCommand::Forward(remote, local) => {
                push_text(&mut out, "host:forward:");
                push_text(&mut out, local.as_str());
                push_text(&mut out, ";");
                push_text(&mut out, remote.as_str());
            },
            ADBLocalCommand::ForwardRemove(local) => {
                push_text(&mut out, "host:killforward:");
                push_text(&mut out, local.as_str());
            },
            ADBLocalCommand::ForwardRemoveAll => push_text(&mut out, "host:killforward-all"),
        }
        out
    }
}

impl ADBCommand {
    /// The request's text, as bytes.
    pub fn to_bytes(&self) -> (r: Vec<u8>)
        ensures
            r@ == command_bytes(*self),
    {
        match self {
            ADBCommand::Host(h) => h.to_bytes(),
            ADBCommand::Local(l) => l.to_bytes(),
        }
    }
}

/// Commands of the file synchronisation sub-protocol.
#[derive(Clone, Copy, Debug, PartialEq, Eq, Structural)]
pub enum SyncCommand {
    Send,
    Recv,
    List,
    Stat,
}

/// The four-letter word of a sync command.
pub open spec fn sync_command_bytes(c: SyncCommand) -> Seq<u8> {
    match c {
        SyncCommand::Send => text("SEND"),
        SyncCommand::Recv => text("RECV"),
        SyncCommand::List => text("LIST"),
        SyncCommand::Stat => text("STAT"),
    }
}

impl SyncCommand {
    /// The command's word, as bytes.
    pub fn to_bytes(&self) -> (r: Vec<u8>)
        ensures
            r@ == sync_command_bytes(*self),
    {
        let mut out: Vec<u8> = Vec::new();
        match self {
            SyncCommand::Send => push_text(&mut out, "SEND"),
            SyncCommand::Recv => push_text(&mut out, "RECV"),
            SyncCommand::List => push_text(&mut out, "LIST"),
            SyncCommand::Stat => push_text(&mut out, "STAT"),
        }
        out
    }
}

/// Features that a host may advertise.
#[derive(Clone, Copy, Debug, PartialEq, Eq, Structural)]
pub enum HostFeatures {
    /// The shell protocol v2, which tells output, errors and exit status apart.
    ShellV2,
    /// The `cmd` service.
    Cmd,
}

/// The feature that a name stands for, if any.
pub open spec fn feature_of(name: Seq<u8>) -> Option<HostFeatures> {
    if name == text("shell_v2") {
        Some(HostFeatures::ShellV2)
    } else if name == text("cmd") {
        Some(HostFeatures::Cmd)
    } else {
        None
    }
}

/// The pieces of `s` between occurrences of `sep`, as `<[u8]>::split` yields them: one
/// more piece than there are separators, empty pieces included.
pub open spec fn split_on(s: Seq<u8>, sep: u8) -> Seq<Seq<u8>>
    decreases s.len(),
{
    if s.len() == 0 {
        seq![seq![]]
    } else {
        let front = split_on(s.drop_last(), sep);
        if s.last() == sep {
            front.push(seq![])
        } else {
            front.update(front.len() - 1, front.last().push(s.last()))
        }
    }
}

/// The known features among names, in their order; unknown names are skipped.
pub open spec fn features_in(names: Seq<Seq<u8>>) -> Seq<HostFeatures>
    decreases names.len(),
{
    if names.len() == 0 {
        seq![]
    } else {
        let front = features_in(names.drop_last());
        match feature_of(names.last()) {
            Some(f) => front.push(f),
            None => front,
        }
    }
}

/// The features in a comma-separated list of names.
pub open spec fn host_features_of(raw: Seq<u8>) -> Seq<HostFeatures> {
    features_in(split_on(raw, 0x2c))
}

/// There is always at least one piece.
pub proof fn lemma_split_on_nonempty(s: Seq<u8>, sep: u8)
    ensures
        split_on(s, sep).len() >= 1,
    decreases s.len(),
{
    if s.len() > 0 {
        lemma_split_on_nonempty(s.drop_last(), sep);
    }
}

fn range_equals(raw: &[u8], start: usize, end: usize, lit: &[u8]) -> (r: bool)
    requires
        start <= end <= raw@.len(),
    ensures
        r == (raw@.subrange(start as int, end as int) == lit@),
{
    if end - start != lit.len() {
        return false;
    }
    let mut k: usize = 0;
    while k < lit.len()
        invariant
            end - start == lit@.len(),
            start <= end <= raw@.len(),
            k <= lit@.len(),
            forall|j: int| 0 <= j < k ==> raw@[start + j] == lit@[j],
        decreases lit@.len() - k,
    {
        if raw[start + k] != lit[k] {
            assert(raw@.subrange(start as int, end as int)[k as int] != lit@[k as int]);
            return false;
        }
        k = k + 1;
    }
    assert(raw@.subrange(start as int, end as int) =~= lit@);
    true
}

fn feature_at(raw: &[u8], start: usize, end: usize) -> (r: Option<HostFeatures>)
    requires
        start <= end <= raw@.len(),
    ensures
        r == feature_of(raw@.subrange(start as int, end as int)),
{
    if range_equals(raw, start, end, "shell_v2".as_bytes()) {
        Some(HostFeatures::ShellV2)
    } else if range_equals(raw, start, end, "cmd".as_bytes()) {
        Some(HostFeatures::Cmd)
    } else {
        None
    }
}

impl HostFeatures {
    /// The feature that a name stands for, if any.
    pub fn from_bytes(name: &[u8]) -> (r: Option<HostFeatures>)
        ensures
            r == feature_of(name@),
    {
        assert(name@.subrange(0, name@.len() as int) =~= name@);
        feature_at(name, 0, name.len())
    }
}

/// Reads the host's answer to a features request: the known features among its
/// comma-separated names.
pub fn parse_host_features(raw: &[u8]) -> (r: Vec<HostFeatures>)
    ensures
        r@ == host_features_of(raw@),
{
    let mut feats: Vec<HostFeatures> = Vec::new();
    let mut start: usize = 0;
    let mut i: usize = 0;
    assert(raw@.take(0) =~= Seq::<u8>::empty());
    while i < raw.len()
        invariant
            start <= i <= raw@.len(),
            split_on(raw@.take(i as int), 0x2c).len() >= 1,
            split_on(raw@.take(i as int), 0x2c).last() == raw@.subrange(start as int, i as int),
            feats@ == features_in(split_on(raw@.take(i as int), 0x2c).drop_last()),
        decreases raw@.len() - i,
    {
        let ghost before = split_on(raw@.take(i as int), 0x2c);
        assert(raw@.take(i + 1).drop_last() =~= raw@.take(i as int));
        assert(raw@.take(i + 1).last() == raw@[i as int]);
        if raw[i] == 0x2c {
            let f = feature_at(raw, start, i);
            assert(before.drop_last().push(before.last()) =~= before);
            match f {
                Some(x) => feats.push(x),
                None => {},
            }
            start = i + 1;
            assert(split_on(raw@.take(i + 1), 0x2c) == before.push(seq![]));
            assert(before.push(seq![]).drop_last() =~= before);
            assert(raw@.subrange(start as int, i + 1) =~= Seq::<u8>::empty());
        } else {
            let ghost after = before.update(before.len() - 1, before.last().push(raw@[i as int]));
            assert(split_on(raw@.take(i + 1), 0x2c) == after);
            assert(after.drop_last() =~= before.drop_last());
            assert(raw@.subrange(start as int, i + 1) =~= raw@.subrange(start as int, i as int).push(raw@[i as int]));
        }
        i = i + 1;
    }
    let ghost segs = split_on(raw@.take(i as int), 0x2c);
    assert(raw@.take(i as int) =~= raw@);
    assert(segs.drop_last().push(segs.last()) =~= segs);
    match feature_at(raw, start, raw.len()) {
        Some(x) => feats.push(x),
        None => {},
    }
    feats
}

/// A feature is among the known features of some names exactly when one of the names
/// stands for it.
pub proof fn lemma_feature_listed(names: Seq<Seq<u8>>, f: HostFeatures)
    ensures
        features_in(names).contains(f) <==> exists|i: int| 0 <= i < names.len() && feature_of(#[trigger] names[i]) == Some(f),
    decreases names.len(),
{
    if names.len() > 0 {
        let front = names.drop_last();
        lemma_feature_listed(front, f);
        if features_in(names).contains(f) {
            if features_in(front).contains(f) {
                let i = choose|i: int| 0 <= i < front.len() && feature_of(#[trigger] front[i]) == Some(f);
                assert(names[i] == front[i]);
            } else {
                let k = choose|k: int| 0 <= k < features_in(names).len() && features_in(names)[k] == f;
                assert(feature_of(names.last()) == Some(f)) by {
                    match feature_of(names.last()) {
                        Some(g) => {
                            assert(features_in(names) == features_in(front).push(g));
                            if k < features_in(front).len() {
                                assert(features_in(front)[k] == f);
                            }
                        },
                        None => {},
                    }
                }
                assert(names[names.len() - 1] == names.last());
            }
        } else {
            assert forall|i: int| 0 <= i < names.len() implies feature_of(#[trigger] names[i]) != Some(f) by {
                if i < front.len() {
                    assert(names[i] == front[i]);
                    if feature_of(front[i]) == Some(f) {
                        assert(features_in(front).contains(f));
                        let k = choose|k: int| 0 <= k < features_in(front).len() && features_in(front)[k] == f;
                        match feature_of(names.last()) {
                            Some(g) => {
                                assert(features_in(names) == features_in(front).push(g));
                                assert(features_in(names)[k] == f);
                            },
                            None => {},
                        }
                    }
                } else {
                    if feature_of(names[i]) == Some(f) {
                        assert(features_in(names) == features_in(front).push(f));
                        assert(features_in(names)[features_in(front).len() as int] == f);
                    }
                }
            }
        }
    }
}

/// The host speaks the shell protocol v2 exactly when its answer to a features request
/// names `shell_v2` or `cmd` among its comma-separated names.
pub proof fn lemma_shell_v2_iff_named(raw: Seq<u8>)
    ensures
        shell_v2_supported(host_features_of(raw)) <==> exists|i: int|
            0 <= i < split_on(raw, 0x2c).len() && (#[trigger] split_on(raw, 0x2c)[i] == text("shell_v2")
                || split_on(raw, 0x2c)[i] == text("cmd")),
{
    let names = split_on(raw, 0x2c);
    lemma_feature_listed(names, HostFeatures::ShellV2);
    lemma_feature_listed(names, HostFeatures::Cmd);
    assert(text("shell_v2") != text("cmd")) by {
        reveal_strlit("shell_v2");
        reveal_strlit("cmd");
        assert(vstd::utf8::is_ascii_chars("shell_v2"@));
        assert(vstd::utf8::is_ascii_chars("cmd"@));
        vstd::utf8::is_ascii_chars_encode_utf8("shell_v2"@);
        vstd::utf8::is_ascii_chars_encode_utf8("cmd"@);
    }
    if shell_v2_supported(host_features_of(raw)) {
        if host_features_of(raw).contains(HostFeatures::ShellV2) {
            let i = choose|i: int| 0 <= i < names.len() && feature_of(#[trigger] names[i]) == Some(HostFeatures::ShellV2);
            assert(names[i] == text("shell_v2"));
        } else {
            let i = choose|i: int| 0 <= i < names.len() && feature_of(#[trigger] names[i]) == Some(HostFeatures::Cmd);
            assert(names[i] == text("cmd"));
        }
    }
    if exists|i: int| 0 <= i < names.len() && (#[trigger] names[i] == text("shell_v2") || names[i] == text("cmd")) {
        let i = choose|i: int| 0 <= i < names.len() && (#[trigger] names[i] == text("shell_v2") || names[i] == text("cmd"));
        if names[i] == text("shell_v2") {
            assert(feature_of(names[i]) == Some(HostFeatures::ShellV2));
        } else {
            assert(feature_of(names[i]) == Some(HostFeatures::Cmd));
        }
    }
}

/// Whether the host speaks the shell protocol v2: it advertises `shell_v2` or `cmd`.
pub open spec fn shell_v2_supported(features: Seq<HostFeatures>) -> bool {
    features.contains(HostFeatures::ShellV2) || features.contains(HostFeatures::Cmd)
}

/// Decides whether a shell command runs over the shell protocol v2: only when the
/// features could be read and include `shell_v2` or `cmd`.
pub fn use_shell_v2(features: &crate::error::Result<Vec<HostFeatures>>) -> (r: bool)
    ensures
        r == (features matches Ok(f) && shell_v2_supported(f@)),
{
    match features {
        Err(_) => false,
        Ok(f) => {
            let mut i: usize = 0;
            while i < f.len()
                invariant
                    features matches Ok(g) && g@ == f@,
                    i <= f@.len(),
                    forall|j: int| 0 <= j < i ==> f@[j] != HostFeatures::ShellV2 && f@[j] != HostFeatures::Cmd,
                decreases f@.len() - i,
            {
                if f[i] == HostFeatures::ShellV2 {
                    assert(f@[i as int] == HostFeatures::ShellV2);
                    assert(f@.contains(HostFeatures::ShellV2));
                    return true;
                }
                if f[i] == HostFeatures::Cmd {
                    assert(f@[i as int] == HostFeatures::Cmd);
                    assert(f@.contains(HostFeatures::Cmd));
                    return true;
                }
                i = i + 1;
            }
            false
        },
    }
}

} // verus!
