//! An ADB device reached over byte streams that a user-supplied opener provides, one
//! fresh stream per command.
use vstd::prelude::*;
use vstd::utf8::{decode_utf8, encode_utf8, valid_utf8};

use crate::error::{
    bytes_outcome, is_io_error, is_not_connected, AdbErrorView, IoError, IoErrorKind, Result, RustADBError,
};
use crate::models::{
    command_bytes, host_features_of, host_command_bytes, lemma_encode_utf8_concat, parse_host_features,
    shell_args_bytes, text, ADBCommand, ADBHostCommand, ADBLocalCommand, HostFeatures, SyncCommand,
};
use crate::stream_transport::{ReadWrite, StreamTransport};
use crate::sync::{send_header_bytes, send_header_frame};
use crate::wire::{
    decimal_bytes, decimal_text, fail_bytes, failure_of, framed, is_answer_error, lemma_framed_block_roundtrip,
    lemma_okay_grants, lemma_okay_reply, lemma_reply_errors, okay_bytes, reply_outcome, status_of,
    string_from_utf8, unit_outcome, utf8_error_text, AdbRequestStatus,
};

verus! {

/// Opens a new byte stream (yamux, TCP, etc.) for each device command, as the ADB client
/// opens a fresh connection per call.
pub trait StreamOpener: Send + Sync {
    /// Opens a new stream. Called before every `host:transport:...` request.
    fn open(&self) -> core::result::Result<Box<dyn ReadWrite>, String>;
}

/// ADB device communicating over a generic byte stream (yamux, etc.).
pub struct ADBStreamDevice {
    identifier: Option<String>,
    transport_id: Option<u32>,
    opener: Box<dyn StreamOpener>,
}

impl ADBStreamDevice {
    /// The serial that selects the device, if any.
    pub closed spec fn identifier(&self) -> Option<Seq<char>> {
        match self.identifier {
            Some(s) => Some(s@),
            None => None,
        }
    }

    /// The transport id that selects the device, if any.
    pub closed spec fn transport_id(&self) -> Option<u32> {
        self.transport_id
    }

    /// The request that binds a fresh connection to this device: by transport id where it
    /// is known, else by serial, else to whichever device is attached.
    pub open spec fn transport_selector(&self) -> Seq<u8> {
        match self.transport_id() {
            Some(id) => text("host:transport-id:") + decimal_bytes(id as nat),
            None => match self.identifier() {
                Some(serial) => text("host:transport:") + encode_utf8(serial),
                None => text("host:transport-any"),
            },
        }
    }

    /// Create a new stream-backed ADB device.
    pub fn new(serial: String, opener: Box<dyn StreamOpener>) -> (d: Self)
        ensures
            d.identifier() == Some(serial@),
            d.transport_id() is None,
    {
        ADBStreamDevice { identifier: Some(serial), transport_id: None, opener }
    }

    /// The text that describes the device, as `Debug` writes it: its serial and its
    /// transport id.
    pub fn debug_text(&self) -> (r: String)
        ensures
            r@ == device_debug_text(self.identifier(), self.transport_id()),
    {
        let mut out = String::from_str("ADBStreamDevice { identifier: ");
        match &self.identifier {
            Some(serial) => {
                out.append("Some(");
                let quoted = debug_str(serial.as_str());
                out.append(quoted.as_str());
                out.append(")");
            },
            None => out.append("None"),
        }
        out.append(", transport_id: ");
        match self.transport_id {
            Some(id) => {
                out.append("Some(");
                let digits = decimal_text(id as u64);
                out.append(digits.as_str());
                out.append(")");
            },
            None => out.append("None"),
        }
        out.append(" }");
        out
    }

    fn transport_command(&self) -> (c: ADBHostCommand)
        ensures
            host_command_bytes(c) == self.transport_selector(),
    {
        if let Some(id) = self.transport_id {
            ADBHostCommand::TransportId(id)
        } else if let Some(serial) = &self.identifier {
            ADBHostCommand::TransportSerial(serial.clone())
        } else {
            ADBHostCommand::TransportAny
        }
    }

    /// Opens a fresh stream with the device's opener.
    pub fn open_stream(&self) -> (r: Result<StreamTransport>)
        ensures
            r matches Ok(t) ==> t.is_connected() && t.sent() == Seq::<u8>::empty() && t.received()
                == Seq::<u8>::empty() && t.faults() == Seq::<IoError>::empty(),
            r matches Err(e) ==> e matches RustADBError::IOError(io) && io.kind == IoErrorKind::Other,
    {
        transport_from(self.opener.open())
    }

    /// Binds a transport to the device with the selection request, then sends `command`
    /// and reads its answer, with the body that follows `OKAY` where `with_response`.
    fn command_on(&self, t: &mut StreamTransport, command: &ADBCommand, with_response: bool) -> (r: Result<
        Vec<u8>,
    >)
        ensures
            final(t).continues(old(t)),
            final(t).faulted_with(old(t), r),
            !old(t).is_connected() ==> is_not_connected(r) && final(t).unchanged_since(old(t)),
            !is_io_error(r) ==> final(t).sent_since(old(t)) == command_request(
                self.transport_selector(),
                command_bytes(*command),
                final(t).received_since(old(t)),
            ) && command_session(final(t).received_since(old(t)), with_response) == Some(bytes_outcome(r)),
            final(t).received_since(old(t)).len() > 0 && final(t).received_since(old(t)) != okay_bytes()
                ==> final(t).sent_since(old(t)) == command_request(
                self.transport_selector(),
                command_bytes(*command),
                final(t).received_since(old(t)),
            ),
            is_io_error(r) ==> command_session(final(t).received_since(old(t)), with_response) is None,
    {
        let ghost t0 = *t;
        let selection = ADBCommand::Host(self.transport_command());
        match t.send_adb_request(&selection) {
            Ok(()) => {},
            Err(e) => {
                proof {
                    let r1 = t.received_since(&t0);
                    if r1.len() >= 4 && r1.take(4) == okay_bytes() {
                        assert(status_of(r1.take(4)) == Ok::<AdbRequestStatus, AdbErrorView>(AdbRequestStatus::Okay));
                        assert(!(e is IOError)) by {
                            if e is IOError {
                                assert(fail_bytes()[0] != okay_bytes()[0]);
                            }
                        }
                    }
                    assert(t.sent_since(&t0) + Seq::<u8>::empty() =~= t.sent_since(&t0));
                }
                return Err(e);
            },
        }
        let ghost t1 = *t;
        proof {
            lemma_okay_reply(t1.received_since(&t0));
        }
        let r = t.proxy_connection(command, with_response);
        proof {
            StreamTransport::lemma_continues_trans(&t0, &t1, &*t);
            let rr = t.received_since(&t0);
            assert(rr.take(4) =~= okay_bytes());
            assert(rr.skip(4) =~= t.received_since(&t1));
        }
        r
    }

    /// On a fresh transport, selects the device and asks for the features that the host
    /// advertises.
    pub fn host_features_on(&self, t: &mut StreamTransport) -> (r: Result<Vec<HostFeatures>>)
        ensures
            final(t).continues(old(t)),
            final(t).faulted_with(old(t), r),
            !old(t).is_connected() ==> is_not_connected(r) && final(t).unchanged_since(old(t)),
            !is_io_error(r) ==> final(t).sent_since(old(t)) == command_request(
                self.transport_selector(),
                text("host:features"),
                final(t).received_since(old(t)),
            ),
            final(t).received_since(old(t)).len() > 0 && final(t).received_since(old(t)) != okay_bytes()
                ==> final(t).sent_since(old(t)) == command_request(
                self.transport_selector(),
                text("host:features"),
                final(t).received_since(old(t)),
            ),
            r matches Ok(f) ==> (command_session(final(t).received_since(old(t)), true) matches Some(Ok(body))
                && f@ == host_features_of(body)),
            r is Err && !is_io_error(r) ==> command_session(final(t).received_since(old(t)), true) == Some(
                Err::<Seq<u8>, AdbErrorView>(r->Err_0@),
            ),
            is_io_error(r) ==> command_session(final(t).received_since(old(t)), true) is None,
    {
        let raw = self.command_on(t, &ADBCommand::Host(ADBHostCommand::HostFeatures), true)?;
        Ok(parse_host_features(raw.as_slice()))
    }

    /// The features that the host advertises.
    pub fn host_features(&self) -> (r: Result<Vec<HostFeatures>>)
        ensures
            r matches Ok(f) ==> exists|raw: Seq<u8>| f@ == host_features_of(raw),
            r matches Err(e) ==> e is IOError || is_answer_error(e@),
            is_opener_failure(r) || exists|before: StreamTransport, after: StreamTransport|
                #[trigger] self.features_run(before, after, r),
    {
        let mut t = self.open_stream()?;
        let ghost t0 = t;
        let r = self.host_features_on(&mut t);
        proof {
            if r is Err && !is_io_error(r) {
                lemma_session_errors(t.received_since(&t0), true, r->Err_0@);
            }
            assert(self.features_run(t0, t, r));
        }
        r
    }

    /// On a fresh transport, selects the device and forwards `remote` on the device to
    /// `local`.
    pub fn forward_on(&self, t: &mut StreamTransport, remote: String, local: String) -> (r: Result<()>)
        ensures
            final(t).continues(old(t)),
            final(t).faulted_with(old(t), r),
            !old(t).is_connected() ==> is_not_connected(r) && final(t).unchanged_since(old(t)),
            !is_io_error(r) ==> final(t).sent_since(old(t)) == command_request(
                self.transport_selector(),
                command_bytes(ADBCommand::Local(ADBLocalCommand::Forward(remote, local))),
                final(t).received_since(old(t)),
            ) && command_session(final(t).received_since(old(t)), false) == Some(unit_outcome(r)),
            final(t).received_since(old(t)).len() > 0 && final(t).received_since(old(t)) != okay_bytes()
                ==> final(t).sent_since(old(t)) == command_request(
                self.transport_selector(),
                command_bytes(ADBCommand::Local(ADBLocalCommand::Forward(remote, local))),
                final(t).received_since(old(t)),
            ),
            is_io_error(r) ==> command_session(final(t).received_since(old(t)), false) is None,
    {
        let r = self.command_on(t, &ADBCommand::Local(ADBLocalCommand::Forward(remote, local)), false);
        match r {
            Ok(_) => Ok(()),
            Err(e) => Err(e),
        }
    }

    /// Forward socket connection.
    pub fn forward(&self, remote: String, local: String) -> (r: Result<()>)
        ensures
            r matches Err(e) ==> e is IOError || is_answer_error(e@),
            is_opener_failure(r) || exists|before: StreamTransport, after: StreamTransport|
                #[trigger] self.unit_command_run(before, after, command_bytes(ADBCommand::Local(ADBLocalCommand::Forward(remote, local))), r),
    {
        let mut t = self.open_stream()?;
        let ghost t0 = t;
        let r = self.forward_on(&mut t, remote, local);
        proof {
            if r is Err && !is_io_error(r) {
                lemma_session_errors(t.received_since(&t0), false, r->Err_0@);
            }
            assert(self.unit_command_run(t0, t, command_bytes(ADBCommand::Local(ADBLocalCommand::Forward(remote, local))), r));
        }
        r
    }

    /// On a fresh transport, selects the device and removes the forward rule of the local
    /// endpoint `local`.
    pub fn forward_remove_on(&self, t: &mut StreamTransport, local: String) -> (r: Result<()>)
        ensures
            final(t).continues(old(t)),
            final(t).faulted_with(old(t), r),
            !old(t).is_connected() ==> is_not_connected(r) && final(t).unchanged_since(old(t)),
            !is_io_error(r) ==> final(t).sent_since(old(t)) == command_request(
                self.transport_selector(),
                command_bytes(ADBCommand::Local(ADBLocalCommand::ForwardRemove(local))),
                final(t).received_since(old(t)),
            ) && command_session(final(t).received_since(old(t)), false) == Some(unit_outcome(r)),
            final(t).received_since(old(t)).len() > 0 && final(t).received_since(old(t)) != okay_bytes()
                ==> final(t).sent_since(old(t)) == command_request(
                self.transport_selector(),
                command_bytes(ADBCommand::Local(ADBLocalCommand::ForwardRemove(local))),
                final(t).received_since(old(t)),
            ),
            is_io_error(r) ==> command_session(final(t).received_since(old(t)), false) is None,
    {
        match self.command_on(t, &ADBCommand::Local(ADBLocalCommand::ForwardRemove(local)), false) {
            Ok(_) => Ok(()),
            Err(e) => Err(e),
        }
    }

    /// Remove a previously applied forward rule by its local endpoint.
    pub fn forward_remove(&self, local: String) -> (r: Result<()>)
        ensures
            r matches Err(e) ==> e is IOError || is_answer_error(e@),
            is_opener_failure(r) || exists|before: StreamTransport, after: StreamTransport|
                #[trigger] self.unit_command_run(before, after, command_bytes(ADBCommand::Local(ADBLocalCommand::ForwardRemove(local))), r),
    {
        let mut t = self.open_stream()?;
        let ghost t0 = t;
        let r = self.forward_remove_on(&mut t, local);
        proof {
            if r is Err && !is_io_error(r) {
                lemma_session_errors(t.received_since(&t0), false, r->Err_0@);
            }
            assert(self.unit_command_run(t0, t, command_bytes(ADBCommand::Local(ADBLocalCommand::ForwardRemove(local))), r));
        }
        r
    }

    /// On a fresh transport, selects the device and asks for the list of port forwards, as
    /// text.
    pub fn forward_list_on(&self, t: &mut StreamTransport) -> (r: Result<String>)
        ensures
            final(t).continues(old(t)),
            !old(t).is_connected() ==> is_not_connected(r) && final(t).unchanged_since(old(t)),
            r matches Ok(s) ==> (command_session(final(t).received_since(old(t)), true) matches Some(Ok(body))
                && valid_utf8(body) && s@ == decode_utf8(body)),
            r is Err ==> {
                ||| command_session(final(t).received_since(old(t)), true) == Some(
                    Err::<Seq<u8>, AdbErrorView>(r->Err_0@),
                ) && final(t).faults() == old(t).faults()
                ||| command_session(final(t).received_since(old(t)), true) matches Some(Ok(body)) && !valid_utf8(body)
                    && r->Err_0@ == AdbErrorView::IO(IoErrorKind::Other, utf8_error_text(body))
                    && final(t).faults() == old(t).faults()
                ||| command_session(final(t).received_since(old(t)), true) is None && is_io_error(r)
                    && final(t).faulted_with(old(t), r)
            },
            final(t).received_since(old(t)).len() > 0 && final(t).received_since(old(t)) != okay_bytes()
                ==> final(t).sent_since(old(t)) == command_request(
                self.transport_selector(),
                text("host:list-forward"),
                final(t).received_since(old(t)),
            ),
    {
        let raw = self.command_on(t, &ADBCommand::Host(ADBHostCommand::ListForward), true)?;
        forward_list_text(raw)
    }

    /// List all port forwards.
    pub fn forward_list(&self) -> (r: Result<String>)
        ensures
            r matches Ok(s) ==> exists|raw: Seq<u8>| valid_utf8(raw) && s@ == decode_utf8(raw),
            r matches Err(e) ==> e is IOError || is_answer_error(e@),
            is_opener_failure(r) || exists|before: StreamTransport, after: StreamTransport|
                #[trigger] self.list_run(before, after, r),
    {
        let mut t = self.open_stream()?;
        let ghost t0 = t;
        let r = self.forward_list_on(&mut t);
        proof {
            if r is Err && !is_io_error(r) {
                lemma_session_errors(t.received_since(&t0), true, r->Err_0@);
            }
            assert(self.list_run(t0, t, r));
        }
        r
    }

    /// On a fresh transport, selects the device and removes every forward rule.
    pub fn forward_remove_all_on(&self, t: &mut StreamTransport) -> (r: Result<()>)
        ensures
            final(t).continues(old(t)),
            final(t).faulted_with(old(t), r),
            !old(t).is_connected() ==> is_not_connected(r) && final(t).unchanged_since(old(t)),
            !is_io_error(r) ==> final(t).sent_since(old(t)) == command_request(
                self.transport_selector(),
                text("host:killforward-all"),
                final(t).received_since(old(t)),
            ) && command_session(final(t).received_since(old(t)), false) == Some(unit_outcome(r)),
            final(t).received_since(old(t)).len() > 0 && final(t).received_since(old(t)) != okay_bytes()
                ==> final(t).sent_since(old(t)) == command_request(
                self.transport_selector(),
                text("host:killforward-all"),
                final(t).received_since(old(t)),
            ),
            is_io_error(r) ==> command_session(final(t).received_since(old(t)), false) is None,
    {
        match self.command_on(t, &ADBCommand::Local(ADBLocalCommand::ForwardRemoveAll), false) {
            Ok(_) => Ok(()),
            Err(e) => Err(e),
        }
    }

    /// Remove all previously applied forward rules.
    pub fn forward_remove_all(&self) -> (r: Result<()>)
        ensures
            r matches Err(e) ==> e is IOError || is_answer_error(e@),
            is_opener_failure(r) || exists|before: StreamTransport, after: StreamTransport|
                #[trigger] self.unit_command_run(before, after, text("host:killforward-all"), r),
    {
        let mut t = self.open_stream()?;
        let ghost t0 = t;
        let r = self.forward_remove_all_on(&mut t);
        proof {
            if r is Err && !is_io_error(r) {
                lemma_session_errors(t.received_since(&t0), false, r->Err_0@);
            }
            assert(self.unit_command_run(t0, t, text("host:killforward-all"), r));
        }
        r
    }
}

/// A fresh stream from the opener: attached, with nothing sent, read or failed yet.
pub open spec fn is_fresh(t: StreamTransport) -> bool {
    &&& t.is_connected()
    &&& t.sent() == Seq::<u8>::empty()
    &&& t.received() == Seq::<u8>::empty()
    &&& t.faults() == Seq::<IoError>::empty()
}

/// The failure of an opener to give a stream: an I/O error of kind `Other`.
pub open spec fn is_opener_failure<T>(r: Result<T>) -> bool {
    r matches Err(RustADBError::IOError(e)) && e.kind == IoErrorKind::Other
}

impl ADBStreamDevice {
    /// `after` is the fresh stream `before` once a device command without response, whose
    /// request is `command`, ran on it and ended with `r`: the requests sent, and `r` the
    /// outcome of the answers read (a failure of the stream where they are incomplete).
    pub open spec fn unit_command_run(&self, before: StreamTransport, after: StreamTransport, command: Seq<u8>, r: Result<()>) -> bool {
        &&& is_fresh(before)
        &&& after.continues(&before)
        &&& after.faulted_with(&before, r)
        &&& (!is_io_error(r) ==> after.sent_since(&before) == command_request(
            self.transport_selector(),
            command,
            after.received_since(&before),
        ) && command_session(after.received_since(&before), false) == Some(unit_outcome(r)))
        &&& (is_io_error(r) ==> command_session(after.received_since(&before), false) is None)
    }

    /// `after` is the fresh stream `before` once the features were asked for on it, ending
    /// with `r`: the features of the whole body answered, or the answers' error.
    pub open spec fn features_run(&self, before: StreamTransport, after: StreamTransport, r: Result<Vec<HostFeatures>>) -> bool {
        &&& is_fresh(before)
        &&& after.continues(&before)
        &&& after.faulted_with(&before, r)
        &&& (!is_io_error(r) ==> after.sent_since(&before) == command_request(
            self.transport_selector(),
            text("host:features"),
            after.received_since(&before),
        ))
        &&& (r matches Ok(f) ==> (command_session(after.received_since(&before), true) matches Some(Ok(body))
            && f@ == host_features_of(body)))
        &&& (r is Err && !is_io_error(r) ==> command_session(after.received_since(&before), true) == Some(
            Err::<Seq<u8>, AdbErrorView>(r->Err_0@),
        ))
        &&& (is_io_error(r) ==> command_session(after.received_since(&before), true) is None)
    }

    /// `after` is the fresh stream `before` once the port forwards were asked for on it,
    /// ending with `r`: the whole body answered, as text, or why not.
    pub open spec fn list_run(&self, before: StreamTransport, after: StreamTransport, r: Result<String>) -> bool {
        &&& is_fresh(before)
        &&& after.continues(&before)
        &&& (r matches Ok(s) ==> (command_session(after.received_since(&before), true) matches Some(Ok(body))
            && valid_utf8(body) && s@ == decode_utf8(body)))
        &&& (r is Err ==> {
            ||| command_session(after.received_since(&before), true) == Some(Err::<Seq<u8>, AdbErrorView>(r->Err_0@))
                && after.faults() == before.faults()
            ||| command_session(after.received_since(&before), true) matches Some(Ok(body)) && !valid_utf8(body)
                && r->Err_0@ == AdbErrorView::IO(IoErrorKind::Other, utf8_error_text(body)) && after.faults()
                == before.faults()
            ||| command_session(after.received_since(&before), true) is None && is_io_error(r)
                && after.faulted_with(&before, r)
        })
        &&& (after.received_since(&before).len() > 0 && after.received_since(&before) != okay_bytes()
            ==> after.sent_since(&before) == command_request(
            self.transport_selector(),
            text("host:list-forward"),
            after.received_since(&before),
        ))
    }
}

/// A device command without response succeeds exactly when the device selection and the
/// command are both granted (the answers are `OKAY` twice), and then both requests were
/// sent; a refusal of either fails it with the refusal's message, and a refused selection
/// sends nothing more.
pub proof fn lemma_unit_command_outcome(
    d: &ADBStreamDevice,
    before: StreamTransport,
    after: StreamTransport,
    command: Seq<u8>,
    r: Result<()>,
    msg: Seq<u8>,
)
    requires
        d.unit_command_run(before, after, command, r),
        msg.len() < 0x10000,
    ensures
        r is Ok <==> after.received_since(&before) == okay_bytes() + okay_bytes(),
        r is Ok ==> after.sent_since(&before) == framed(d.transport_selector()) + framed(command),
        after.received_since(&before) == okay_bytes() + fail_bytes() + framed(msg) ==> (r matches Err(e) && e@
            == failure_of(msg)),
        after.received_since(&before) == fail_bytes() + framed(msg) ==> (r matches Err(e) && e@ == failure_of(msg)
            && after.sent_since(&before) == framed(d.transport_selector())),
{
    let rr = after.received_since(&before);
    lemma_session_answers(Seq::empty(), msg, false);
    if r is Ok {
        assert(command_session(rr, false) == Some(Ok::<Seq<u8>, AdbErrorView>(Seq::empty())));
        assert(selection_granted(rr));
        lemma_okay_reply(rr.skip(4));
        assert(rr =~= rr.take(4) + rr.skip(4));
    }
    if rr == okay_bytes() + okay_bytes() {
        assert(!is_io_error(r));
    }
    if rr == fail_bytes() + framed(msg) {
        assert(rr.take(4) =~= fail_bytes());
        assert(fail_bytes()[0] != okay_bytes()[0]);
        assert(!selection_granted(rr));
        assert(framed(d.transport_selector()) + Seq::<u8>::empty() =~= framed(d.transport_selector()));
    }
}

/// When the features are asked for and both requests are granted, with `body` as the
/// answer, the result is the known features named anywhere in that whole body.
pub proof fn lemma_features_outcome(d: &ADBStreamDevice, before: StreamTransport, after: StreamTransport, r: Result<
    Vec<HostFeatures>,
>, body: Seq<u8>)
    requires
        d.features_run(before, after, r),
        body.len() < 0x10000,
        after.received_since(&before) == okay_bytes() + okay_bytes() + framed(body),
    ensures
        r matches Ok(f) && f@ == host_features_of(body),
{
    lemma_session_answers(body, Seq::empty(), true);
}

/// When the port forwards are asked for and both requests are granted, with `body` as the
/// answer, the result is that whole body as text where it is UTF-8, and otherwise an I/O
/// error of kind `Other` with the UTF-8 error's text.
pub proof fn lemma_list_outcome(d: &ADBStreamDevice, before: StreamTransport, after: StreamTransport, r: Result<
    String,
>, body: Seq<u8>)
    requires
        d.list_run(before, after, r),
        body.len() < 0x10000,
        after.received_since(&before) == okay_bytes() + okay_bytes() + framed(body),
    ensures
        valid_utf8(body) ==> (r matches Ok(s) && s@ == decode_utf8(body)),
        !valid_utf8(body) ==> (r matches Err(e) && e@ == AdbErrorView::IO(IoErrorKind::Other, utf8_error_text(body))),
{
    lemma_session_answers(body, Seq::empty(), true);
}

/// The text that `Debug` writes for a string: the string in double quotes, with its
/// special characters escaped.
pub uninterp spec fn debug_str_text(s: Seq<char>) -> Seq<char>;

/// `<str as Debug>::fmt`: the string quoted and escaped, a function of the string alone.
#[verifier::external_body]
fn debug_str(s: &str) -> (r: String)
    ensures
        r@ == debug_str_text(s@),
{
    format!("{:?}", s)
}

/// The text that describes a device, as `Debug` writes it.
pub open spec fn device_debug_text(identifier: Option<Seq<char>>, transport_id: Option<u32>) -> Seq<char> {
    "ADBStreamDevice { identifier: "@ + match identifier {
        Some(s) => "Some("@ + debug_str_text(s) + ")"@,
        None => "None"@,
    } + ", transport_id: "@ + match transport_id {
        Some(n) => "Some("@ + decode_utf8(decimal_bytes(n as nat)) + ")"@,
        None => "None"@,
    } + " }"@
}

/// A stream from the opener as a transport: attached, with nothing sent, read or failed
/// yet; or the opener's failure, as an I/O error of kind `Other` with the opener's message.
pub fn transport_from(opened: core::result::Result<Box<dyn ReadWrite>, String>) -> (r: Result<StreamTransport>)
    ensures
        r is Ok <==> opened is Ok,
        r matches Ok(t) ==> t.is_connected() && t.sent() == Seq::<u8>::empty() && t.received() == Seq::<u8>::empty()
            && t.faults() == Seq::<IoError>::empty(),
        opened matches Err(m) ==> (r matches Err(e) && e@ == AdbErrorView::IO(IoErrorKind::Other, m@)),
{
    match opened {
        Ok(stream) => {
            let mut t = StreamTransport::new();
            t.connect(stream);
            Ok(t)
        },
        Err(message) => Err(RustADBError::IOError(IoError { kind: IoErrorKind::Other, message })),
    }
}

/// Whether the answers read on a fresh stream open with `OKAY`: the device selection was
/// granted.
pub open spec fn selection_granted(r: Seq<u8>) -> bool {
    r.len() >= 4 && r.take(4) == okay_bytes()
}

/// What a device command sends on a fresh stream, given the answers `r` read on it: the
/// selection request, then, once the selection is granted, the command.
pub open spec fn command_request(selector: Seq<u8>, command: Seq<u8>, r: Seq<u8>) -> Seq<u8> {
    framed(selector) + if selection_granted(r) {
        framed(command)
    } else {
        Seq::empty()
    }
}

/// What a device command makes of the answers `r` read on a fresh stream: `Some` when `r`
/// is exactly what it reads. A granted selection is followed by the command's answer; a
/// refused one ends the command with its error.
pub open spec fn command_session(r: Seq<u8>, with_response: bool) -> Option<
    core::result::Result<Seq<u8>, AdbErrorView>,
> {
    if selection_granted(r) {
        reply_outcome(r.skip(4), with_response)
    } else {
        match reply_outcome(r, false) {
            Some(Err(e)) => Some(Err(e)),
            _ => None,
        }
    }
}

/// A device command whose selection and command are both granted succeeds, with the body
/// that follows where the command has a response; one whose selection or command is
/// refused fails with the refusal's message.
pub proof fn lemma_session_answers(body: Seq<u8>, msg: Seq<u8>, with_response: bool)
    requires
        body.len() < 0x10000,
        msg.len() < 0x10000,
    ensures
        command_session(okay_bytes() + okay_bytes(), false) == Some(Ok::<Seq<u8>, AdbErrorView>(Seq::empty())),
        command_session(okay_bytes() + okay_bytes() + framed(body), true) == Some(
            Ok::<Seq<u8>, AdbErrorView>(body),
        ),
        command_session(fail_bytes() + framed(msg), with_response) == Some(
            Err::<Seq<u8>, AdbErrorView>(failure_of(msg)),
        ),
        command_session(okay_bytes() + fail_bytes() + framed(msg), with_response) == Some(
            Err::<Seq<u8>, AdbErrorView>(failure_of(msg)),
        ),
{
    lemma_okay_grants(body);
    lemma_framed_block_roundtrip(msg);
    let granted = okay_bytes() + okay_bytes();
    assert(granted.take(4) =~= okay_bytes());
    assert(granted.skip(4) =~= okay_bytes());
    let answered = okay_bytes() + okay_bytes() + framed(body);
    assert(answered.take(4) =~= okay_bytes());
    assert(answered.skip(4) =~= okay_bytes() + framed(body));
    let refused = fail_bytes() + framed(msg);
    assert(refused.take(4) =~= fail_bytes());
    assert(refused.skip(4) =~= framed(msg));
    assert(fail_bytes()[0] != okay_bytes()[0]);
    assert(!selection_granted(refused));
    let late = okay_bytes() + fail_bytes() + framed(msg);
    assert(late.take(4) =~= okay_bytes());
    assert(late.skip(4) =~= refused);
}

/// Every error that a device command's answers give is an answer error.
pub proof fn lemma_session_errors(r: Seq<u8>, with_response: bool, e: AdbErrorView)
    requires
        command_session(r, with_response) == Some(Err::<Seq<u8>, AdbErrorView>(e)),
    ensures
        is_answer_error(e),
{
    if selection_granted(r) {
        lemma_reply_errors(r.skip(4), with_response, e);
    } else {
        lemma_reply_errors(r, false, e);
    }
}

/// A shell request: `shell`, its options, then the command.
pub open spec fn shell_request_bytes(command: Seq<char>, options: Seq<u8>) -> Seq<u8> {
    text("shell") + options + text(",raw:") + encode_utf8(command)
}

/// The options of a shell request over the protocol v2: `v2`, and the terminal type where
/// one is given.
pub open spec fn shell_v2_options(term: Option<Seq<char>>) -> Seq<u8> {
    text(",") + text("v2") + match term {
        Some(t) => text(",") + text("TERM=") + encode_utf8(t),
        None => Seq::empty(),
    }
}

impl ADBStreamDevice {
    /// On a fresh transport, selects the device and starts running `command` in a shell
    /// without protocol v2. The command's output follows on the stream.
    pub fn begin_shell_command_v1(&self, t: &mut StreamTransport, command: String) -> (r: Result<()>)
        ensures
            final(t).continues(old(t)),
            final(t).faulted_with(old(t), r),
            !old(t).is_connected() ==> is_not_connected(r) && final(t).unchanged_since(old(t)),
            !is_io_error(r) ==> final(t).sent_since(old(t)) == command_request(
                self.transport_selector(),
                shell_request_bytes(command@, Seq::empty()),
                final(t).received_since(old(t)),
            ) && command_session(final(t).received_since(old(t)), false) == Some(unit_outcome(r)),
            final(t).received_since(old(t)).len() > 0 && final(t).received_since(old(t)) != okay_bytes()
                ==> final(t).sent_since(old(t)) == command_request(
                self.transport_selector(),
                shell_request_bytes(command@, Seq::empty()),
                final(t).received_since(old(t)),
            ),
            is_io_error(r) ==> command_session(final(t).received_since(old(t)), false) is None,
    {
        proof {
            assert(shell_args_bytes(Seq::<String>::empty()) =~= Seq::<u8>::empty());
            assert(text("shell") + Seq::<u8>::empty() =~= text("shell"));
        }
        let cmd = ADBCommand::Local(ADBLocalCommand::ShellCommand(command, Vec::new()));
        match self.command_on(t, &cmd, false) {
            Ok(_) => Ok(()),
            Err(e) => Err(e),
        }
    }

    /// On a fresh transport, selects the device and starts running `command` in a shell
    /// over the protocol v2, with the terminal type `term` where one is given. The
    /// command's packets follow on the stream.
    pub fn begin_shell_command_v2(&self, t: &mut StreamTransport, command: String, term: Option<String>) -> (r:
        Result<()>)
        ensures
            final(t).continues(old(t)),
            final(t).faulted_with(old(t), r),
            !old(t).is_connected() ==> is_not_connected(r) && final(t).unchanged_since(old(t)),
            !is_io_error(r) ==> final(t).sent_since(old(t)) == command_request(
                self.transport_selector(),
                shell_request_bytes(command@, shell_v2_options(match term { Some(s) => Some(s@), None => None })),
                final(t).received_since(old(t)),
            ) && command_session(final(t).received_since(old(t)), false) == Some(unit_outcome(r)),
            final(t).received_since(old(t)).len() > 0 && final(t).received_since(old(t)) != okay_bytes()
                ==> final(t).sent_since(old(t)) == command_request(
                self.transport_selector(),
                shell_request_bytes(command@, shell_v2_options(match term { Some(s) => Some(s@), None => None })),
                final(t).received_since(old(t)),
            ),
            is_io_error(r) ==> command_session(final(t).received_since(old(t)), false) is None,
    {
        let ghost term_v = match &term { Some(s) => Some(s@), None => None::<Seq<char>> };
        let mut args: Vec<String> = Vec::new();
        args.push(String::from_str("v2"));
        let ghost a0 = args@;
        proof {
            assert(a0.drop_last() =~= Seq::<String>::empty());
            assert(shell_args_bytes(a0.drop_last()) =~= Seq::<u8>::empty());
            assert(shell_args_bytes(a0) =~= text(",") + text("v2"));
        }
        if let Some(term) = term {
            let mut option = String::from_str("TERM=");
            option.append(term.as_str());
            args.push(option);
            proof {
                lemma_encode_utf8_concat("TERM="@, term@);
                assert(args@.drop_last() =~= a0);
                assert(shell_args_bytes(args@) =~= shell_v2_options(term_v));
            }
        } else {
            assert(shell_args_bytes(args@) =~= shell_v2_options(term_v));
        }
        let cmd = ADBCommand::Local(ADBLocalCommand::ShellCommand(command, args));
        match self.command_on(t, &cmd, false) {
            Ok(_) => Ok(()),
            Err(e) => Err(e),
        }
    }

    /// On a fresh transport, selects the device, enters the sync sub-protocol and opens a
    /// `SEND` of `path`. The file's content follows in `DATA` frames.
    pub fn begin_push(&self, t: &mut StreamTransport, path: &str) -> (r: Result<()>)
        ensures
            final(t).continues(old(t)),
            final(t).faulted_with(old(t), r),
            !old(t).is_connected() ==> is_not_connected(r) && final(t).unchanged_since(old(t)),
            r is Ok ==> final(t).sent_since(old(t)) == framed(self.transport_selector()) + framed(text("sync:"))
                + text("SEND") + send_header_bytes(path@) && final(t).received_since(old(t)) == okay_bytes()
                + okay_bytes(),
            r is Err && !is_io_error(r) ==> final(t).sent_since(old(t)) == command_request(
                self.transport_selector(),
                text("sync:"),
                final(t).received_since(old(t)),
            ) && command_session(final(t).received_since(old(t)), false) == Some(unit_outcome(r)),
            is_io_error(r) ==> command_session(final(t).received_since(old(t)), false) is None
                || final(t).received_since(old(t)) == okay_bytes() + okay_bytes(),
            final(t).received_since(old(t)).len() > 0 && final(t).received_since(old(t)) != okay_bytes()
                && final(t).received_since(old(t)) != okay_bytes() + okay_bytes() ==> final(t).sent_since(old(t))
                == command_request(self.transport_selector(), text("sync:"), final(t).received_since(old(t))),
            final(t).received_since(old(t)) == okay_bytes() + okay_bytes() ==> {
                ||| final(t).sent_since(old(t)) == framed(self.transport_selector()) + framed(text("sync:"))
                ||| final(t).sent_since(old(t)) == framed(self.transport_selector()) + framed(text("sync:"))
                    + text("SEND")
                ||| final(t).sent_since(old(t)) == framed(self.transport_selector()) + framed(text("sync:"))
                    + text("SEND") + send_header_bytes(path@)
            },
    {
        let ghost t0 = *t;
        match self.command_on(t, &ADBCommand::Local(ADBLocalCommand::Sync), false) {
            Ok(_) => {},
            Err(e) => {
                proof {
                    lemma_session_answers(Seq::empty(), Seq::empty(), false);
                }
                return Err(e);
            },
        }
        let ghost t1 = *t;
        proof {
            let rr = t1.received_since(&t0);
            lemma_okay_reply(rr.skip(4));
            assert(rr =~= rr.take(4) + rr.skip(4));
        }
        match t.send_sync_request(&SyncCommand::Send) {
            Ok(()) => {},
            Err(e) => {
                proof {
                    StreamTransport::lemma_continues_trans(&t0, &t1, &*t);
                }
                return Err(e);
            },
        }
        let ghost t2 = *t;
        let header = send_header_frame(path);
        let r = t.write_all(header.as_slice());
        proof {
            StreamTransport::lemma_continues_trans(&t0, &t1, &t2);
            StreamTransport::lemma_continues_trans(&t0, &t2, &*t);
        }
        r
    }
}

/// Reads the list of port forwards as text: where it is not UTF-8, an I/O error of kind
/// `Other` that carries the text of the UTF-8 error.
pub fn forward_list_text(raw: Vec<u8>) -> (r: Result<String>)
    ensures
        r is Ok <==> valid_utf8(raw@),
        r matches Ok(s) ==> s@ == decode_utf8(raw@),
        r matches Err(e) ==> e@ == AdbErrorView::IO(IoErrorKind::Other, utf8_error_text(raw@)),
{
    match string_from_utf8(raw) {
        Ok(s) => Ok(s),
        Err(message) => Err(RustADBError::IOError(IoError { kind: IoErrorKind::Other, message })),
    }
}

} // verus!
