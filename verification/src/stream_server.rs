//! The ADB server reached over one byte stream.
use vstd::prelude::*;

use crate::error::{is_io_error, Result};
use crate::models::{split_on, ADBCommand, ADBHostCommand};
use crate::stream_transport::{ReadWrite, StreamTransport};
use crate::wire::{framed, reply_outcome};

verus! {

/// The lines before the first empty one.
pub open spec fn until_empty(lines: Seq<Seq<u8>>) -> Seq<Seq<u8>>
    decreases lines.len(),
{
    if lines.len() == 0 {
        seq![]
    } else {
        let front = until_empty(lines.drop_last());
        if front.len() == lines.len() - 1 && lines.last().len() > 0 {
            front.push(lines.last())
        } else {
            front
        }
    }
}

/// The device entries of a `host:devices-l` answer: its lines, up to the first empty one.
pub open spec fn device_entries_of(raw: Seq<u8>) -> Seq<Seq<u8>> {
    until_empty(split_on(raw, 0x0a))
}

/// The views of byte vectors.
pub open spec fn byte_views(v: Seq<Vec<u8>>) -> Seq<Seq<u8>> {
    v.map_values(|b: Vec<u8>| b@)
}

proof fn lemma_until_empty_len(lines: Seq<Seq<u8>>)
    ensures
        until_empty(lines).len() <= lines.len(),
    decreases lines.len(),
{
    if lines.len() > 0 {
        lemma_until_empty_len(lines.drop_last());
    }
}

fn copy_range(raw: &[u8], start: usize, end: usize) -> (v: Vec<u8>)
    requires
        start <= end <= raw@.len(),
    ensures
        v@ == raw@.subrange(start as int, end as int),
{
    let mut v: Vec<u8> = Vec::new();
    let mut k = start;
    while k < end
        invariant
            start <= k <= end <= raw@.len(),
            v@ == raw@.subrange(start as int, k as int),
        decreases end - k,
    {
        v.push(raw[k]);
        assert(v@ =~= raw@.subrange(start as int, k + 1));
        k = k + 1;
    }
    v
}

/// Splits a `host:devices-l` answer into its device entries, one per line, up to the
/// first empty line.
pub fn device_entries(raw: &[u8]) -> (r: Vec<Vec<u8>>)
    ensures
        byte_views(r@) == device_entries_of(raw@),
{
    let mut entries: Vec<Vec<u8>> = Vec::new();
    let mut start: usize = 0;
    let mut i: usize = 0;
    let mut stopped = false;
    proof {
        assert(raw@.take(0) =~= Seq::<u8>::empty());
        crate::models::lemma_split_on_nonempty(raw@, 0x0a);
    }
    while i < raw.len()
        invariant
            start <= i <= raw@.len(),
            split_on(raw@.take(i as int), 0x0a).len() >= 1,
            split_on(raw@.take(i as int), 0x0a).last() == raw@.subrange(start as int, i as int),
            byte_views(entries@) == until_empty(split_on(raw@.take(i as int), 0x0a).drop_last()),
            !stopped <==> entries@.len() == split_on(raw@.take(i as int), 0x0a).len() - 1,
        decreases raw@.len() - i,
    {
        let ghost before = split_on(raw@.take(i as int), 0x0a);
        assert(raw@.take(i + 1).drop_last() =~= raw@.take(i as int));
        assert(raw@.take(i + 1).last() == raw@[i as int]);
        if raw[i] == 0x0a {
            proof {
                lemma_until_empty_len(before.drop_last());
            }
            let ghost prev = byte_views(entries@);
            if !stopped && i > start {
                let entry = copy_range(raw, start, i);
                entries.push(entry);
                assert(byte_views(entries@) =~= prev.push(raw@.subrange(start as int, i as int)));
            } else {
                stopped = true;
            }
            assert(before.drop_last().push(before.last()) =~= before);
            start = i + 1;
            assert(split_on(raw@.take(i + 1), 0x0a) == before.push(seq![]));
            assert(before.push(seq![]).drop_last() =~= before);
            assert(raw@.subrange(start as int, i + 1) =~= Seq::<u8>::empty());
        } else {
            let ghost after = before.update(before.len() - 1, before.last().push(raw@[i as int]));
            assert(split_on(raw@.take(i + 1), 0x0a) == after);
            assert(after.drop_last() =~= before.drop_last());
            assert(raw@.subrange(start as int, i + 1) =~= raw@.subrange(start as int, i as int).push(raw@[i as int]));
        }
        i = i + 1;
    }
    let ghost pieces = split_on(raw@.take(i as int), 0x0a);
    assert(raw@.take(i as int) =~= raw@);
    assert(pieces.drop_last().push(pieces.last()) =~= pieces);
    proof {
        lemma_until_empty_len(pieces.drop_last());
    }
    let ghost prev = byte_views(entries@);
    if !stopped && raw.len() > start {
        let entry = copy_range(raw, start, raw.len());
        entries.push(entry);
        assert(byte_views(entries@) =~= prev.push(raw@.subrange(start as int, raw@.len() as int)));
    }
    entries
}

/// ADB server over a generic byte stream (yamux, etc.).
pub struct ADBStreamServer {
    transport: StreamTransport,
}

impl ADBStreamServer {
    /// The transport to the server.
    pub closed spec fn transport(&self) -> StreamTransport {
        self.transport
    }

    /// The text that describes the server, as `Debug` writes it.
    pub fn debug_text(&self) -> (r: String)
        ensures
            r@ == "ADBStreamServer"@,
    {
        String::from_str("ADBStreamServer")
    }

    /// Create a new ADB server over the given byte stream.
    pub fn new(stream: Box<dyn ReadWrite>) -> (s: Self)
        ensures
            s.transport().is_connected(),
            s.transport().sent() == Seq::<u8>::empty(),
            s.transport().received() == Seq::<u8>::empty(),
    {
        let mut transport = StreamTransport::new();
        transport.connect(stream);
        ADBStreamServer { transport }
    }

    /// Send `host:devices-l` and split the answer into the attached devices' entries, one
    /// line each.
    pub fn devices_long(&mut self) -> (r: Result<Vec<Vec<u8>>>)
        ensures
            final(self).transport().continues(&old(self).transport()),
            final(self).transport().faulted_with(&old(self).transport(), r),
            !is_io_error(r) ==> final(self).transport().sent_since(&old(self).transport()) == framed(
                crate::models::text("host:devices-l"),
            ),
            r matches Ok(entries) ==> exists|raw: Seq<u8>|
                reply_outcome(final(self).transport().received_since(&old(self).transport()), true) == Some(
                    Ok::<Seq<u8>, crate::error::AdbErrorView>(raw),
                ) && byte_views(entries@) == device_entries_of(raw),
            r is Err && !is_io_error(r) ==> reply_outcome(
                final(self).transport().received_since(&old(self).transport()),
                true,
            ) == Some(Err::<Seq<u8>, crate::error::AdbErrorView>(r->Err_0@)),
            is_io_error(r) ==> reply_outcome(final(self).transport().received_since(&old(self).transport()), true)
                is None,
            final(self).transport().received_since(&old(self).transport()).len() > 0 ==> final(self).transport().sent_since(
                &old(self).transport(),
            ) == framed(crate::models::text("host:devices-l")),
    {
        let raw = self.transport.proxy_connection(&ADBCommand::Host(ADBHostCommand::DevicesLong), true)?;
        Ok(device_entries(raw.as_slice()))
    }
}

} // verus!
