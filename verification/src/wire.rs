//! The byte-level vocabulary of the ADB wire protocol: status words, hexadecimal
//! and little-endian lengths, and the framing of requests.
use vstd::prelude::*;
use vstd::utf8::{decode_utf8, valid_utf8};

use crate::error::{AdbErrorView, Result, RustADBError, outcome};

verus! {

/// The status word that opens every answer of the server.
#[derive(Clone, Copy, Debug, PartialEq, Eq, Structural)]
pub enum AdbRequestStatus {
    Okay,
    Fail,
}

/// The bytes of `OKAY`.
pub open spec fn okay_bytes() -> Seq<u8> {
    seq![0x4fu8, 0x4b, 0x41, 0x59]
}

/// The bytes of `FAIL`.
pub open spec fn fail_bytes() -> Seq<u8> {
    seq![0x46u8, 0x41, 0x49, 0x4c]
}

/// How a status word is read: `OKAY` and `FAIL` are statuses; other UTF-8 text is an
/// unknown response type; anything else is not text.
pub open spec fn status_of(st: Seq<u8>) -> core::result::Result<AdbRequestStatus, AdbErrorView> {
    if st == okay_bytes() {
        Ok(AdbRequestStatus::Okay)
    } else if st == fail_bytes() {
        Ok(AdbRequestStatus::Fail)
    } else if valid_utf8(st) {
        Err(AdbErrorView::UnknownResponseType(decode_utf8(st)))
    } else {
        Err(AdbErrorView::Utf8Str)
    }
}

/// `std::str::from_utf8`, with the text copied into a `String`: `Some` exactly when the
/// bytes are well-formed UTF-8, and then the characters they encode.
#[verifier::external_body]
pub(crate) fn utf8_to_string(bytes: &[u8]) -> (r: Option<String>)
    ensures
        r is Some <==> valid_utf8(bytes@),
        r matches Some(s) ==> s@ == decode_utf8(bytes@),
{
    match std::str::from_utf8(bytes) {
        Ok(s) => Some(s.to_string()),
        Err(_) => None,
    }
}

/// The text of the error that `String::from_utf8` reports for bytes that are not UTF-8.
pub uninterp spec fn utf8_error_text(bytes: Seq<u8>) -> Seq<char>;

/// `String::from_utf8`, with its error's text: `Ok` exactly when the bytes are well-formed
/// UTF-8, with the characters they encode; otherwise the text of the error, which depends
/// on the bytes alone.
#[verifier::external_body]
pub(crate) fn string_from_utf8(bytes: Vec<u8>) -> (r: core::result::Result<String, String>)
    ensures
        r is Ok <==> valid_utf8(bytes@),
        r matches Ok(s) ==> s@ == decode_utf8(bytes@),
        r matches Err(m) ==> m@ == utf8_error_text(bytes@),
{
    match String::from_utf8(bytes) {
        Ok(s) => Ok(s),
        Err(e) => Err(e.to_string()),
    }
}

/// Reads a status word.
pub fn parse_request_status(st: &[u8]) -> (r: Result<AdbRequestStatus>)
    ensures
        outcome(r) == status_of(st@),
{
    if st.len() == 4 && st[0] == 0x4f && st[1] == 0x4b && st[2] == 0x41 && st[3] == 0x59 {
        assert(st@ =~= okay_bytes());
        Ok(AdbRequestStatus::Okay)
    } else if st.len() == 4 && st[0] == 0x46 && st[1] == 0x41 && st[2] == 0x49 && st[3] == 0x4c {
        assert(st@ =~= fail_bytes());
        Ok(AdbRequestStatus::Fail)
    } else {
        assert(st@ != okay_bytes() && st@ != fail_bytes()) by {
            if st@ == okay_bytes() {
                assert(st@[0] == 0x4f && st@[1] == 0x4b && st@[2] == 0x41 && st@[3] == 0x59);
            }
            if st@ == fail_bytes() {
                assert(st@[0] == 0x46 && st@[1] == 0x41 && st@[2] == 0x49 && st@[3] == 0x4c);
            }
        }
        match utf8_to_string(st) {
            Some(s) => Err(RustADBError::UnknownResponseType(s)),
            None => Err(RustADBError::Utf8StrError),
        }
    }
}

/// A hexadecimal digit, in either case.
pub open spec fn is_hex_digit(c: char) -> bool {
    ||| (0x30 <= c as u32 && c as u32 <= 0x39)
    ||| (0x61 <= c as u32 && c as u32 <= 0x66)
    ||| (0x41 <= c as u32 && c as u32 <= 0x46)
}

/// The value of a hexadecimal digit.
pub open spec fn hex_digit_value(c: char) -> nat {
    if c as u32 <= 0x39 {
        (c as u32 - 0x30) as nat
    } else if c as u32 >= 0x61 {
        (c as u32 - 0x61 + 10) as nat
    } else {
        (c as u32 - 0x41 + 10) as nat
    }
}

/// The value of a sequence of hexadecimal digits, most significant first.
pub open spec fn hex_value(s: Seq<char>) -> nat
    decreases s.len(),
{
    if s.len() == 0 {
        0
    } else {
        hex_value(s.drop_last()) * 16 + hex_digit_value(s.last())
    }
}

/// What `u32::from_str_radix(s, 16)` gives: an optional `+` followed by at least one
/// hexadecimal digit, whose value fits a `u32`.
pub open spec fn radix16_u32(s: Seq<char>) -> Option<u32> {
    let digits = if s.len() > 0 && s[0] == '+' { s.drop_first() } else { s };
    if digits.len() > 0 && (forall|i: int| 0 <= i < digits.len() ==> is_hex_digit(#[trigger] digits[i]))
        && hex_value(digits) <= u32::MAX {
        Some(hex_value(digits) as u32)
    } else {
        None
    }
}

/// `u32::from_str_radix(s, 16)`: the value of `s` read as an optional `+` and hexadecimal
/// digits, `None` where the text is empty, holds another character, or overflows.
#[verifier::external_body]
fn u32_from_hex_str(s: &str) -> (r: Option<u32>)
    ensures
        r == radix16_u32(s@),
{
    u32::from_str_radix(s, 16).ok()
}

/// How a four-byte hexadecimal length is read: as UTF-8 text, then as a hexadecimal number.
pub open spec fn hex_length_of(b: Seq<u8>) -> core::result::Result<u32, AdbErrorView> {
    if !valid_utf8(b) {
        Err(AdbErrorView::Utf8Str)
    } else {
        match radix16_u32(decode_utf8(b)) {
            Some(n) => Ok(n),
            None => Err(AdbErrorView::ParseInt),
        }
    }
}

/// Reads a hexadecimal length.
pub fn parse_hex_length(b: &[u8]) -> (r: Result<u32>)
    ensures
        outcome(r) == hex_length_of(b@),
{
    match utf8_to_string(b) {
        None => Err(RustADBError::Utf8StrError),
        Some(s) => match u32_from_hex_str(s.as_str()) {
            Some(n) => Ok(n),
            None => Err(RustADBError::ParseIntError),
        },
    }
}

/// The lower-case hexadecimal digit of a value below 16.
pub open spec fn hex_lower_digit(d: nat) -> u8 {
    if d < 10 {
        (0x30 + d) as u8
    } else {
        (0x61 + d - 10) as u8
    }
}

/// The last `w` lower-case hexadecimal digits of `n`, most significant first.
pub open spec fn hex_fixed(n: nat, w: nat) -> Seq<u8>
    decreases w,
{
    if w == 0 {
        seq![]
    } else {
        hex_fixed(n / 16, (w - 1) as nat) + seq![hex_lower_digit(n % 16)]
    }
}

/// The number of hexadecimal digits of `n`, and at least four.
pub open spec fn hex_width(n: nat) -> nat
    decreases n,
{
    if n < 0x10000 {
        4
    } else {
        1 + hex_width(n / 16)
    }
}

/// The length of a request as the server reads it: `n` in lower-case hexadecimal,
/// padded with zeros to four digits.
pub open spec fn length_prefix(n: nat) -> Seq<u8> {
    hex_fixed(n, hex_width(n))
}

/// A request on the wire: its length prefix, then its bytes.
pub open spec fn framed(payload: Seq<u8>) -> Seq<u8> {
    length_prefix(payload.len()) + payload
}

proof fn lemma_hex_width_bound(n: nat)
    ensures
        hex_width(n) <= 4 + n,
        hex_width(n) >= 4,
    decreases n,
{
    if n >= 0x10000 {
        lemma_hex_width_bound(n / 16);
    }
}

fn hex_width_of(n: usize) -> (w: usize)
    ensures
        w == hex_width(n as nat),
    decreases n,
{
    if n < 0x10000 {
        4
    } else {
        proof {
            lemma_hex_width_bound((n / 16) as nat);
        }
        1 + hex_width_of(n / 16)
    }
}

fn push_hex_fixed(out: &mut Vec<u8>, n: usize, w: usize)
    ensures
        final(out)@ == old(out)@ + hex_fixed(n as nat, w as nat),
    decreases w,
{
    if w > 0 {
        push_hex_fixed(out, n / 16, w - 1);
        let d = (n % 16) as u8;
        let c: u8 = if d < 10 { 0x30 + d } else { 0x61 + d - 10 };
        out.push(c);
    }
}

/// Frames a request: the length prefix, then the request's bytes.
pub fn encode_request(payload: &[u8]) -> (r: Vec<u8>)
    ensures
        r@ == framed(payload@),
{
    let mut out: Vec<u8> = Vec::new();
    let w = hex_width_of(payload.len());
    push_hex_fixed(&mut out, payload.len(), w);
    out.extend_from_slice(payload);
    out
}

/// The decimal digits of `n`, most significant first.
pub open spec fn decimal_bytes(n: nat) -> Seq<u8>
    decreases n,
{
    if n < 10 {
        seq![(0x30 + n) as u8]
    } else {
        decimal_bytes(n / 10) + seq![(0x30 + n % 10) as u8]
    }
}

/// Appends the decimal digits of `n`.
pub fn push_decimal(out: &mut Vec<u8>, n: u64)
    ensures
        final(out)@ == old(out)@ + decimal_bytes(n as nat),
    decreases n,
{
    if n >= 10 {
        push_decimal(out, n / 10);
    }
    out.push(0x30 + (n % 10) as u8);
}

/// The decimal digits of a number are ASCII bytes.
pub proof fn lemma_decimal_ascii(n: nat)
    ensures
        forall|i: int| 0 <= i < decimal_bytes(n).len() ==> decimal_bytes(n)[i] < 0x80,
    decreases n,
{
    if n >= 10 {
        lemma_decimal_ascii(n / 10);
        let front = decimal_bytes(n / 10);
        let last = seq![(0x30 + n % 10) as u8];
        assert(decimal_bytes(n) == front + last);
        assert forall|i: int| 0 <= i < decimal_bytes(n).len() implies decimal_bytes(n)[i] < 0x80 by {
            if i < front.len() {
                assert(decimal_bytes(n)[i] == front[i]);
            } else {
                assert(decimal_bytes(n)[i] == last[i - front.len()]);
            }
        }
    }
}

/// The decimal digits of `n`, as text.
pub fn decimal_text(n: u64) -> (r: String)
    ensures
        r@ == decode_utf8(decimal_bytes(n as nat)),
{
    let mut b: Vec<u8> = Vec::new();
    push_decimal(&mut b, n);
    proof {
        lemma_decimal_ascii(n as nat);
        lemma_ascii_decode(decimal_bytes(n as nat));
        assert(b@ =~= decimal_bytes(n as nat));
    }
    match utf8_to_string(b.as_slice()) {
        Some(s) => s,
        None => String::new(),
    }
}

/// The value of little-endian bytes.
pub open spec fn le_value(b: Seq<u8>) -> nat
    decreases b.len(),
{
    if b.len() == 0 {
        0
    } else {
        b[0] as nat + 256 * le_value(b.drop_first())
    }
}

/// The `k` little-endian bytes of `n`.
pub open spec fn le_bytes(n: nat, k: nat) -> Seq<u8>
    decreases k,
{
    if k == 0 {
        seq![]
    } else {
        seq![(n % 256) as u8] + le_bytes(n / 256, (k - 1) as nat)
    }
}

/// `byteorder::LittleEndian::read_u32`: the little-endian value of the first four bytes.
#[verifier::external_body]
fn read_u32_le(buf: &[u8]) -> (r: u32)
    requires
        buf@.len() >= 4,
    ensures
        r as nat == buf@[0] as nat + 256 * buf@[1] as nat + 65536 * buf@[2] as nat + 16777216 * buf@[3] as nat,
{
    <byteorder::LittleEndian as byteorder::ByteOrder>::read_u32(buf)
}

/// Reads a four-byte little-endian length.
pub fn parse_le_length(b: &[u8]) -> (r: u32)
    requires
        b@.len() == 4,
    ensures
        r as nat == le_value(b@),
{
    let r = read_u32_le(b);
    proof {
        let s = b@;
        let s1 = s.drop_first();
        let s2 = s1.drop_first();
        let s3 = s2.drop_first();
        let s4 = s3.drop_first();
        assert(s4.len() == 0);
        assert(le_value(s4) == 0);
        assert(s3[0] == s[3] && s2[0] == s[2] && s1[0] == s[1]);
        assert(le_value(s3) == s[3] as nat);
        assert(le_value(s2) == s[2] as nat + 256 * le_value(s3));
        assert(le_value(s1) == s[1] as nat + 256 * le_value(s2));
    }
    r
}

/// Appends the `k` little-endian bytes of `n`.
pub fn push_le(out: &mut Vec<u8>, n: u64, k: usize)
    ensures
        final(out)@ == old(out)@ + le_bytes(n as nat, k as nat),
    decreases k,
{
    if k > 0 {
        out.push((n % 256) as u8);
        push_le(out, n / 256, k - 1);
        assert(out@ =~= old(out)@ + le_bytes(n as nat, k as nat));
    }
}

/// A block that opens with its length in four hexadecimal bytes, as the server sends
/// bodies: `Some` when `r` is exactly such a block (or its unreadable length), with the
/// body or the error that reading it gives.
pub open spec fn hex_block(r: Seq<u8>) -> Option<core::result::Result<Seq<u8>, AdbErrorView>> {
    if r.len() < 4 {
        None
    } else {
        match hex_length_of(r.take(4)) {
            Err(e) => if r.len() == 4 { Some(Err(e)) } else { None },
            Ok(n) => if r.len() == 4 + n { Some(Ok(r.skip(4))) } else { None },
        }
    }
}

/// The error that a `FAIL` answer with this message gives.
pub open spec fn failure_of(msg: Seq<u8>) -> AdbErrorView {
    if valid_utf8(msg) {
        AdbErrorView::RequestFailed(decode_utf8(msg))
    } else {
        AdbErrorView::Utf8String
    }
}

/// The server's answer to a request: `Some` when `r` is exactly the bytes that the client
/// reads of it, with what the client makes of them. The answer opens with a status word;
/// `OKAY` is followed by a hexadecimal-length body where the request has a response, and by
/// nothing otherwise; `FAIL` is followed by a hexadecimal-length message.
pub open spec fn reply_outcome(r: Seq<u8>, with_response: bool) -> Option<
    core::result::Result<Seq<u8>, AdbErrorView>,
> {
    if r.len() < 4 {
        None
    } else {
        let rest = r.skip(4);
        match status_of(r.take(4)) {
            Err(e) => if rest.len() == 0 { Some(Err(e)) } else { None },
            Ok(AdbRequestStatus::Okay) => if with_response {
                hex_block(rest)
            } else if rest.len() == 0 {
                Some(Ok(Seq::empty()))
            } else {
                None
            },
            Ok(AdbRequestStatus::Fail) => match hex_block(rest) {
                Some(Ok(msg)) => Some(Err(failure_of(msg))),
                other => other,
            },
        }
    }
}

/// A result without a value, taken as an empty body.
pub open spec fn unit_outcome(r: Result<()>) -> core::result::Result<Seq<u8>, AdbErrorView> {
    match r {
        Ok(_) => Ok(Seq::empty()),
        Err(e) => Err(e@),
    }
}

/// The only answer that grants a request without a response is `OKAY` alone.
pub proof fn lemma_okay_reply(r: Seq<u8>)
    requires
        reply_outcome(r, false) == Some(Ok::<Seq<u8>, AdbErrorView>(Seq::empty())),
    ensures
        r == okay_bytes(),
{
    assert(r.skip(4).len() == 0);
    assert(r =~= r.take(4));
}

/// Sixteen to the power `k`.
pub open spec fn pow16(k: nat) -> nat
    decreases k,
{
    if k == 0 {
        1
    } else {
        16 * pow16((k - 1) as nat)
    }
}

/// Bytes below 128 are well-formed UTF-8, and each decodes to the character of its value.
pub proof fn lemma_ascii_decode(b: Seq<u8>)
    requires
        forall|i: int| 0 <= i < b.len() ==> b[i] < 0x80,
    ensures
        valid_utf8(b),
        decode_utf8(b).len() == b.len(),
        forall|i: int| 0 <= i < b.len() ==> decode_utf8(b)[i] as u32 == b[i] as u32,
    decreases b.len(),
{
    if b.len() > 0 {
        let rest = b.drop_first();
        assert(vstd::utf8::pop_first_scalar(b) =~= rest);
        lemma_ascii_decode(rest);
        let b0 = b[0];
        assert(b0 & 0x7f == b0) by (bit_vector)
            requires
                b0 < 0x80,
        ;
        let c = vstd::utf8::decode_first_scalar(b) as char;
        assert(c as u32 == b0 as u32);
        assert(decode_utf8(b) == seq![c] + decode_utf8(rest));
        assert forall|i: int| 0 <= i < b.len() implies decode_utf8(b)[i] as u32 == b[i] as u32 by {
            if i > 0 {
                assert(decode_utf8(b)[i] == decode_utf8(rest)[i - 1]);
                assert(rest[i - 1] == b[i]);
            } else {
                assert(decode_utf8(b)[0] == c);
            }
        }
    }
}

/// Characters whose values are the digits of `hex_fixed(n, w)` are hexadecimal digits, and
/// read back as `n` where `n` has at most `w` digits.
proof fn lemma_hex_fixed_value(n: nat, w: nat, c: Seq<char>)
    requires
        n < pow16(w),
        c.len() == w,
        forall|i: int| 0 <= i < w ==> c[i] as u32 == hex_fixed(n, w)[i] as u32,
    ensures
        forall|i: int| 0 <= i < w ==> is_hex_digit(#[trigger] c[i]),
        hex_value(c) == n,
    decreases w,
{
    lemma_hex_fixed_len(n, w);
    if w > 0 {
        let front = hex_fixed(n / 16, (w - 1) as nat);
        lemma_hex_fixed_len(n / 16, (w - 1) as nat);
        assert(hex_fixed(n, w) == front + seq![hex_lower_digit(n % 16)]);
        assert forall|i: int| 0 <= i < w - 1 implies c.drop_last()[i] as u32 == front[i] as u32 by {
            assert(hex_fixed(n, w)[i] == front[i]);
        }
        lemma_hex_fixed_value(n / 16, (w - 1) as nat, c.drop_last());
        assert(c.last() as u32 == hex_lower_digit(n % 16) as u32) by {
            assert(hex_fixed(n, w)[w - 1] == hex_lower_digit(n % 16));
        }
        assert forall|i: int| 0 <= i < w implies is_hex_digit(#[trigger] c[i]) by {
            if i < w - 1 {
                assert(c[i] == c.drop_last()[i]);
            }
        }
    }
}

/// The length prefix of a request that is shorter than 65536 bytes is four bytes, which
/// the reader of hexadecimal lengths reads back as the request's length.
pub proof fn lemma_length_prefix_roundtrip(n: nat)
    requires
        n < 0x10000,
    ensures
        length_prefix(n).len() == 4,
        hex_length_of(length_prefix(n)) == Ok::<u32, AdbErrorView>(n as u32),
{
    let b = length_prefix(n);
    assert(pow16(4) == 0x10000) by {
        assert(pow16(0) == 1);
        assert(pow16(1) == 16);
        assert(pow16(2) == 256);
        assert(pow16(3) == 4096);
    }
    lemma_hex_fixed_len(n, 4);
    lemma_hex_fixed_ascii(n, 4);
    lemma_ascii_decode(b);
    let c = decode_utf8(b);
    assert(hex_width(n) == 4);
    lemma_hex_fixed_value(n, 4, c);
    assert(c[0] != '+') by {
        if c[0] == '+' {
            assert(c[0] as u32 == 0x2b);
        }
    }
}

proof fn lemma_hex_fixed_len(n: nat, w: nat)
    ensures
        hex_fixed(n, w).len() == w,
    decreases w,
{
    if w > 0 {
        lemma_hex_fixed_len(n / 16, (w - 1) as nat);
    }
}

proof fn lemma_hex_fixed_ascii(n: nat, w: nat)
    ensures
        forall|i: int| 0 <= i < hex_fixed(n, w).len() ==> hex_fixed(n, w)[i] < 0x80,
    decreases w,
{
    if w > 0 {
        lemma_hex_fixed_ascii(n / 16, (w - 1) as nat);
        let front = hex_fixed(n / 16, (w - 1) as nat);
        assert forall|i: int| 0 <= i < hex_fixed(n, w).len() implies hex_fixed(n, w)[i] < 0x80 by {
            if i < front.len() {
                assert(hex_fixed(n, w)[i] == front[i]);
            }
        }
    }
}

/// A body framed as requests are framed, shorter than 65536 bytes, is read back whole by
/// the reader of hexadecimal-length blocks.
pub proof fn lemma_framed_block_roundtrip(body: Seq<u8>)
    requires
        body.len() < 0x10000,
    ensures
        hex_block(framed(body)) == Some(Ok::<Seq<u8>, AdbErrorView>(body)),
{
    lemma_length_prefix_roundtrip(body.len());
    let f = framed(body);
    assert(f.take(4) =~= length_prefix(body.len()));
    assert(f.skip(4) =~= body);
}

/// Little-endian bytes read back as the value they were made of, where it fits.
pub proof fn lemma_le_roundtrip(n: nat, k: nat)
    requires
        n < pow256(k),
    ensures
        le_bytes(n, k).len() == k,
        le_value(le_bytes(n, k)) == n,
    decreases k,
{
    if k > 0 {
        lemma_le_roundtrip(n / 256, (k - 1) as nat);
        let b = le_bytes(n, k);
        assert(b.drop_first() =~= le_bytes(n / 256, (k - 1) as nat));
    }
}

/// 256 to the power `k`.
pub open spec fn pow256(k: nat) -> nat
    decreases k,
{
    if k == 0 {
        1
    } else {
        256 * pow256((k - 1) as nat)
    }
}

/// Four little-endian bytes hold values below 2^32.
pub proof fn lemma_pow256_4()
    ensures
        pow256(4) == 0x1_0000_0000,
{
    assert(pow256(0) == 1);
    assert(pow256(1) == 256);
    assert(pow256(2) == 65536);
    assert(pow256(3) == 16777216);
}

/// `OKAY` alone grants a request without a response, and a request with one when followed
/// by a body in a hexadecimal-length block.
pub proof fn lemma_okay_grants(body: Seq<u8>)
    requires
        body.len() < 0x10000,
    ensures
        reply_outcome(okay_bytes(), false) == Some(Ok::<Seq<u8>, AdbErrorView>(Seq::empty())),
        reply_outcome(okay_bytes() + framed(body), true) == Some(Ok::<Seq<u8>, AdbErrorView>(body)),
{
    assert(okay_bytes().take(4) =~= okay_bytes());
    assert(okay_bytes().skip(4) =~= Seq::<u8>::empty());
    let r = okay_bytes() + framed(body);
    assert(r.take(4) =~= okay_bytes());
    assert(r.skip(4) =~= framed(body));
    lemma_framed_block_roundtrip(body);
}

/// The errors that an answer of the server can give: a failure message, an unknown
/// status, text that is not UTF-8, or a length that is not hexadecimal.
pub open spec fn is_answer_error(e: AdbErrorView) -> bool {
    ||| e is RequestFailed
    ||| e is UnknownResponseType
    ||| e is Utf8Str
    ||| e is Utf8String
    ||| e is ParseInt
}

/// Every error that an answer gives is an answer error.
pub proof fn lemma_reply_errors(r: Seq<u8>, with_response: bool, e: AdbErrorView)
    requires
        reply_outcome(r, with_response) == Some(Err::<Seq<u8>, AdbErrorView>(e)),
    ensures
        is_answer_error(e),
{
}

} // verus!
