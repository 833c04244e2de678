//! The decisions of a query exchange: accepting a response, falling back to
//! TCP when it was truncated, and framing messages on a TCP stream. The
//! sockets themselves are left to the caller.
use vstd::prelude::*;
use crate::errors::DnsError;
use crate::types::{tc_flag, Message};
use crate::wire::{be16, from_be16, lemma_be16_roundtrip, u16_to_be};

verus! {

/// What to do after a UDP response arrived.
#[derive(Debug, Clone, Copy, PartialEq, Eq, Structural)]
pub enum UdpOutcome {
    /// The response answers the query and is complete.
    Done,
    /// The response answers the query but was truncated: ask again over TCP.
    RetryOverTcp,
}

/// The verdict on a UDP response to `query`: an identifier other than the
/// query's is an `IdMismatch`; a truncated response (TC bit) calls for TCP.
pub fn check_udp_response(query: &Message, response: &Message) -> (r: Result<UdpOutcome, DnsError>)
    ensures
        query@.header.id == response@.header.id && tc_flag(response@.header.flags) ==> r == Ok::<
            UdpOutcome,
            DnsError,
        >(UdpOutcome::RetryOverTcp),
        query@.header.id == response@.header.id && !tc_flag(response@.header.flags) ==> r == Ok::<
            UdpOutcome,
            DnsError,
        >(UdpOutcome::Done),
        query@.header.id != response@.header.id ==> r == Err::<UdpOutcome, DnsError>(
            DnsError::IdMismatch { expected: query@.header.id, got: response@.header.id },
        ),
{
    if query.header().id() == response.header().id() {
        if response.header().tc_bit() {
            Ok(UdpOutcome::RetryOverTcp)
        } else {
            Ok(UdpOutcome::Done)
        }
    } else {
        Err(DnsError::IdMismatch { expected: query.header().id(), got: response.header().id() })
    }
}

/// The verdict on a TCP response to `query`: it must carry the query's
/// identifier.
pub fn check_tcp_response(query: &Message, response: &Message) -> (r: Result<(), DnsError>)
    ensures
        query@.header.id == response@.header.id ==> r == Ok::<(), DnsError>(()),
        query@.header.id != response@.header.id ==> r == Err::<(), DnsError>(
            DnsError::IdMismatch { expected: query@.header.id, got: response@.header.id },
        ),
{
    if query.header().id() == response.header().id() {
        Ok(())
    } else {
        Err(DnsError::IdMismatch { expected: query.header().id(), got: response.header().id() })
    }
}

/// The two-byte length that precedes a message of `len` bytes on a TCP
/// stream: the length modulo 2^16, big-endian.
pub fn tcp_length_prefix(len: usize) -> (r: [u8; 2])
    ensures
        r@ == be16(len as u16),
{
    u16_to_be(len as u16)
}

/// The message length that a two-byte TCP length prefix announces.
pub fn tcp_message_length(prefix: [u8; 2]) -> (r: usize)
    ensures
        r == from_be16(prefix@[0], prefix@[1]),
{
    let len = ((prefix[0] as u16) << 8u16) | (prefix[1] as u16);
    len as usize
}

/// A length of at most 65535 bytes survives the TCP length prefix:
/// reading back the prefix written for `len` gives `len`.
pub proof fn lemma_tcp_length_roundtrip(len: usize)
    requires
        len <= 0xffff,
    ensures
        from_be16(be16(len as u16)[0], be16(len as u16)[1]) == len,
{
    lemma_be16_roundtrip(len as u16);
}

} // verus!
