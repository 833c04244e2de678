//! Building query messages.
use std::collections::hash_map::DefaultHasher;
use std::hash::{BuildHasher, Hasher, RandomState};
use vstd::prelude::*;
use vstd::std_specs::hash::DefaultHasherAdditionalSpecFns;
use crate::types::{Class, Header, Message, Question, QuestionV, Type};

verus! {

/// A fresh `RandomState`. Calls `RandomState::new`, whose keys the standard
/// library draws at random; nothing is claimed of the value.
#[verifier::external_body]
fn new_random_state() -> RandomState {
    RandomState::new()
}

/// A hasher keyed by `state`. Calls `BuildHasher::build_hasher` on a
/// `RandomState`; the hasher's keys come from the state, so nothing is
/// claimed of it.
#[verifier::external_body]
fn keyed_hasher(state: &RandomState) -> DefaultHasher {
    state.build_hasher()
}

/// A message identifier drawn from a randomly keyed hasher: the 16 low bits
/// of the digest of a hasher state whose last write was the one byte 0. The
/// keys, and so the earlier state, are random.
pub fn generate_id() -> (r: u16)
    ensures
        exists|keyed: Seq<Seq<u8>>|
            r == (#[trigger] DefaultHasher::spec_finish(keyed.push(seq![0u8]))) as u16,
{
    let seed = new_random_state();
    let mut hasher = keyed_hasher(&seed);
    let ghost keyed = hasher@;
    let byte: [u8; 1] = [0u8];
    hasher.write(byte.as_slice());
    assert(byte@ =~= seq![0u8]);
    let raw_hash = hasher.finish();
    assert(hasher@ == keyed.push(seq![0u8]));
    raw_hash as u16
}

/// The flags word of a query: only the RD bit (recursion desired), when asked.
pub open spec fn query_flags(recursion_bit: bool) -> u16 {
    if recursion_bit {
        0x0100
    } else {
        0
    }
}

/// A query header: a random identifier, the RD bit as asked, one question.
pub fn create_header(recursion_bit: bool) -> (r: Header)
    ensures
        r@.flags == query_flags(recursion_bit),
        r@.qd_count == 1,
        r@.an_count == 0,
        r@.ns_count == 0,
        r@.ar_count == 0,
{
    let id = generate_id();
    let flags: u16 = if recursion_bit {
        1u16 << 8u16
    } else {
        0
    };
    assert(1u16 << 8u16 == 0x0100u16) by (bit_vector);
    Header::new(id, flags, 1, 0, 0, 0)
}

/// A query for `domain_name` of type `qtype` in class IN, with a random
/// identifier and the RD bit as asked.
pub fn create_message(domain_name: String, qtype: Type, recursion_bit: bool) -> (r: Message)
    ensures
        r@.header.flags == query_flags(recursion_bit),
        r@.header.qd_count == 1,
        r@.header.an_count == 0,
        r@.header.ns_count == 0,
        r@.header.ar_count == 0,
        r@.question == seq![QuestionV { qname: domain_name@, qtype, qclass: Class::IN }],
        r@.answer.len() == 0,
        r@.authority.len() == 0,
        r@.additional.len() == 0,
{
    let header = create_header(recursion_bit);
    let ghost name = domain_name@;
    let question = Question::new(domain_name, qtype, Class::IN);
    let questions = vec![question];
    let r = Message::new(header, questions, Vec::new(), Vec::new(), Vec::new());
    assert(r@.question =~= seq![QuestionV { qname: name, qtype, qclass: Class::IN }]);
    r
}

} // verus!
