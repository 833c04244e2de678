//! Encoding a whole message to the wire format.
use vstd::prelude::*;
use crate::types::{
    header_bytes, question_bytes, question_views, rr_bytes, rr_views, Message, MessageV, QuestionV,
    RRV, Question, RR,
};
use crate::wire::extend_bytes;

verus! {

/// The questions in wire form, one after another.
pub open spec fn questions_bytes(qs: Seq<QuestionV>) -> Seq<u8>
    decreases qs.len(),
{
    if qs.len() == 0 {
        Seq::<u8>::empty()
    } else {
        questions_bytes(qs.drop_last()) + question_bytes(qs.last())
    }
}

/// The records in wire form, one after another.
pub open spec fn rrs_bytes(rs: Seq<RRV>) -> Seq<u8>
    decreases rs.len(),
{
    if rs.len() == 0 {
        Seq::<u8>::empty()
    } else {
        rrs_bytes(rs.drop_last()) + rr_bytes(rs.last())
    }
}

/// A message in wire form: the header bytes, then every question, answer,
/// authority and additional record, in order, without name compression.
pub open spec fn message_bytes(m: MessageV) -> Seq<u8> {
    header_bytes(m.header) + questions_bytes(m.question) + rrs_bytes(m.answer) + rrs_bytes(
        m.authority,
    ) + rrs_bytes(m.additional)
}

fn push_questions(packet: &mut Vec<u8>, qs: &[Question])
    ensures
        final(packet)@ == old(packet)@ + questions_bytes(question_views(qs@)),
{
    let mut i: usize = 0;
    while i < qs.len()
        invariant
            i <= qs@.len(),
            packet@ == old(packet)@ + questions_bytes(question_views(qs@.take(i as int))),
        decreases qs@.len() - i,
    {
        let b = qs[i].to_bytes();
        extend_bytes(packet, b.as_slice());
        proof {
            let t = question_views(qs@.take(i + 1));
            assert(t.drop_last() =~= question_views(qs@.take(i as int)));
            assert(t.last() == qs@[i as int]@);
        }
        i = i + 1;
    }
    assert(qs@.take(qs@.len() as int) =~= qs@);
}

fn push_rrs(packet: &mut Vec<u8>, rs: &[RR])
    ensures
        final(packet)@ == old(packet)@ + rrs_bytes(rr_views(rs@)),
{
    let mut i: usize = 0;
    while i < rs.len()
        invariant
            i <= rs@.len(),
            packet@ == old(packet)@ + rrs_bytes(rr_views(rs@.take(i as int))),
        decreases rs@.len() - i,
    {
        let b = rs[i].to_bytes();
        extend_bytes(packet, b.as_slice());
        proof {
            let t = rr_views(rs@.take(i + 1));
            assert(t.drop_last() =~= rr_views(rs@.take(i as int)));
            assert(t.last() == rs@[i as int]@);
        }
        i = i + 1;
    }
    assert(rs@.take(rs@.len() as int) =~= rs@);
}

/// The message in wire form.
pub fn encode_message(msg: &Message) -> (r: Vec<u8>)
    ensures
        r@ == message_bytes(msg@),
{
    let mut packet: Vec<u8> = Vec::new();
    let header_bytes = msg.header().to_bytes();
    extend_bytes(&mut packet, header_bytes.as_slice());
    push_questions(&mut packet, msg.question());
    push_rrs(&mut packet, msg.answers());
    push_rrs(&mut packet, msg.authority());
    push_rrs(&mut packet, msg.additional());
    assert(packet@ =~= message_bytes(msg@));
    packet
}

} // verus!
