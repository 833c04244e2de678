# dug, verified

A DNS client library: it builds query messages, writes them in the RFC 1035
wire format, and reads responses back, following name compression pointers
only backwards. Every function of the library is verified with Verus, except
a few small trusted wrappers around standard-library calls (string pushes,
Unicode character classes, random hasher keys, I/O error text), whose
contracts are assumed.

- `src/wire.rs` big-endian integers and dotted names on the wire
- `src/types.rs` the message model (header, questions, records) and its encoding
- `src/encoder.rs` a whole message in wire form
- `src/decoder.rs` the decoder and its specification (`parse_message`)
- `src/builder.rs` query construction
- `src/utils.rs` checking a domain name typed by a user
- `src/transport.rs` the decisions of a UDP exchange with TCP fallback, and TCP framing
- `src/errors.rs`, `src/text.rs` errors and their text
- `src/laws.rs` the round trip `parse_message(message_bytes(m)) == Ok(m)` and other laws
- `app/main.rs` the command-line program: sockets and printing
