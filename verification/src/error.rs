use vstd::prelude::*;

verus! {

/// The kind of an input/output failure, as reported by a byte stream.
#[derive(Clone, Copy, Debug, PartialEq, Eq, Structural)]
pub enum IoErrorKind {
    NotConnected,
    UnexpectedEof,
    BrokenPipe,
    InvalidData,
    Interrupted,
    Other,
}

/// An input/output failure: its kind and a human readable message.
#[derive(Debug)]
pub struct IoError {
    pub kind: IoErrorKind,
    pub message: String,
}

/// Errors of the ADB client.
#[derive(Debug)]
pub enum RustADBError {
    /// The byte stream failed, or no stream is attached.
    IOError(IoError),
    /// The server answered `FAIL`, with this message.
    ADBRequestFailed(String),
    /// The server answered with a status that is neither `OKAY` nor `FAIL`.
    UnknownResponseType(String),
    /// Bytes that had to be UTF-8 text were not.
    Utf8StrError,
    /// A message body that had to be UTF-8 text was not.
    Utf8StringError,
    /// A length that had to be hexadecimal was not.
    ParseIntError,
    /// A shell protocol v2 packet was malformed.
    ADBShellV2ParseError(String),
}

/// What an error says, with its texts taken as character sequences.
pub enum AdbErrorView {
    IO(IoErrorKind, Seq<char>),
    RequestFailed(Seq<char>),
    UnknownResponseType(Seq<char>),
    Utf8Str,
    Utf8String,
    ParseInt,
    ShellV2Parse(Seq<char>),
}

impl View for RustADBError {
    type V = AdbErrorView;

    open spec fn view(&self) -> AdbErrorView {
        match self {
            RustADBError::IOError(e) => AdbErrorView::IO(e.kind, e.message@),
            RustADBError::ADBRequestFailed(m) => AdbErrorView::RequestFailed(m@),
            RustADBError::UnknownResponseType(s) => AdbErrorView::UnknownResponseType(s@),
            RustADBError::Utf8StrError => AdbErrorView::Utf8Str,
            RustADBError::Utf8StringError => AdbErrorView::Utf8String,
            RustADBError::ParseIntError => AdbErrorView::ParseInt,
            RustADBError::ADBShellV2ParseError(m) => AdbErrorView::ShellV2Parse(m@),
        }
    }
}

/// The result type of the ADB client.
pub type Result<T> = core::result::Result<T, RustADBError>;

/// A result whose error is taken by its view.
pub open spec fn outcome<T>(r: Result<T>) -> core::result::Result<T, AdbErrorView> {
    match r {
        Ok(v) => Ok(v),
        Err(e) => Err(e@),
    }
}

/// A result carrying bytes, with the bytes and the error taken by their views.
pub open spec fn bytes_outcome(r: Result<Vec<u8>>) -> core::result::Result<Seq<u8>, AdbErrorView> {
    match r {
        Ok(v) => Ok(v@),
        Err(e) => Err(e@),
    }
}

/// True when the result is a failure of the byte stream itself.
pub open spec fn is_io_error<T>(r: Result<T>) -> bool {
    r matches Err(RustADBError::IOError(_))
}

/// True when the result reports that no stream is attached: an I/O error of kind
/// `NotConnected`, with the message `not connected`.
pub open spec fn is_not_connected<T>(r: Result<T>) -> bool {
    r matches Err(RustADBError::IOError(e)) && e.kind == IoErrorKind::NotConnected && e.message@ == "not connected"@
}

/// The error for a transport without a stream: an I/O error of kind `NotConnected`, with
/// the message `not connected`.
pub fn not_connected() -> (e: RustADBError)
    ensures
        e@ == AdbErrorView::IO(IoErrorKind::NotConnected, "not connected"@),
        e matches RustADBError::IOError(io) && io.kind == IoErrorKind::NotConnected && io.message@ == "not connected"@,
{
    RustADBError::IOError(IoError { kind: IoErrorKind::NotConnected, message: String::from_str("not connected") })
}

} // verus!
