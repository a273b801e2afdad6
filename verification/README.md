# adb_client

A client for the Android Debug Bridge (ADB) wire protocol over generic byte streams,
written in Verus: the protocol logic is verified against specifications of the bytes it
sends and of how it reads the bytes it receives.

## Layout

- `src/wire.rs` — status words, hexadecimal and little-endian lengths, request framing,
  and the specification of the server's answers (`reply_outcome`).
- `src/models.rs` — the requests (`ADBCommand`), sync commands, and host features.
- `src/stream_transport.rs` — `StreamTransport`: one connection, with a ghost record of
  every byte sent and received, of every read asked of the stream with what it gave, and
  of every failure that the stream reported; every exchange is specified over that record,
  and an I/O error it returns is the stream's own.
- `src/stream_device.rs` — `ADBStreamDevice`: a fresh stream per command, bound to the
  device by a selection request. Each command has a step over a given transport
  (`forward_on`, `host_features_on`, ...) whose contract states the bytes it sends and
  what it makes of the answers (`command_session`); the command itself opens the stream
  with the user's opener and runs that step.
- `src/stream_server.rs` — `ADBStreamServer`: the list of attached devices.
- `src/shell.rs` — the steps of shell sessions (plain and protocol v2).
- `src/sync.rs` — the frames of a file transfer, `ContentFramer` (which cuts the content
  into `DATA` frames of at most 65535 bytes as it comes), and the server's final answer.
- `app/` — adapters for `std::io` streams, and the loops that pump a shell session's
  output or a file's content into the verified steps (their end is not known in advance).
- `tests/` — tests of the library against in-memory streams.
