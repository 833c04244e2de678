//! Decoding messages from the wire format.
use vstd::prelude::*;
use crate::errors::DnsError;
use crate::text::{bytes_chars, push_char};
use crate::wire::{be32, from_be16, from_be32, join_with, u32_to_be, DOT};
use crate::types::{
    question_views, rr_views, Class, Header, HeaderV, Message, MessageV, Question, QuestionV, RData,
    RDataV, RR, RRV, Type,
};

verus! {

/// The error of a read that runs past the end of `buf` at `pos`.
pub open spec fn out_of_bytes(needed: usize, buf: Seq<u8>, pos: int) -> DnsError {
    DnsError::OutOfBytes { needed, available: (buf.len() - pos) as usize }
}

/// One byte at `pos`, and the position after it.
pub open spec fn parse_u8(buf: Seq<u8>, pos: int) -> Result<(u8, int), DnsError> {
    if pos >= buf.len() {
        Err(out_of_bytes(1, buf, pos))
    } else {
        Ok((buf[pos], pos + 1))
    }
}

/// The dotted name made of the given labels, one char per byte.
pub open spec fn labels_name(ls: Seq<Seq<u8>>) -> Seq<char> {
    bytes_chars(join_with(ls, DOT))
}

/// The pointer target held in a pointer's two bytes.
pub open spec fn pointer_offset(first: u8, second: u8) -> usize {
    (((first & 0x3fu8) as usize) << 8usize) | (second as usize)
}

/// Walks the name at `pos`, following compression pointers; a pointer is
/// only followed backwards, to an offset below its own position and below
/// `last_jump`, which each jump lowers to its target.
/// Yields the labels and the position just after the name as written at
/// `pos` (after its zero byte, or after its first pointer).
pub open spec fn name_walk(buf: Seq<u8>, pos: int, last_jump: int) -> Result<
    (Seq<Seq<u8>>, int),
    DnsError,
>
    decreases last_jump, buf.len() - pos,
{
    if pos < 0 || pos >= buf.len() {
        Err(out_of_bytes(1, buf, pos))
    } else {
        let first = buf[pos];
        if first & 0xc0u8 == 0xc0u8 {
            if pos + 1 >= buf.len() {
                Err(out_of_bytes(1, buf, pos + 1))
            } else {
                let offset = pointer_offset(first, buf[pos + 1]);
                if offset < last_jump && offset < pos {
                    match name_walk(buf, offset as int, offset as int) {
                        Ok((ls, _)) => Ok((ls, pos + 2)),
                        Err(e) => Err(e),
                    }
                } else {
                    Err(DnsError::PointerLoop)
                }
            }
        } else if first == 0 {
            Ok((Seq::empty(), pos + 1))
        } else {
            let end = pos + 1 + first;
            if end > buf.len() {
                Err(out_of_bytes(1, buf, buf.len() as int))
            } else {
                match name_walk(buf, end, last_jump) {
                    Ok((ls, e)) => Ok((seq![buf.subrange(pos + 1, end)] + ls, e)),
                    Err(err) => Err(err),
                }
            }
        }
    }
}

/// The name at `pos` and the position after it.
pub open spec fn parse_name(buf: Seq<u8>, pos: int) -> Result<(Seq<char>, int), DnsError> {
    match name_walk(buf, pos, buf.len() as int) {
        Ok((ls, e)) => Ok((labels_name(ls), e)),
        Err(e) => Err(e),
    }
}

/// Labels `acc` already read, followed by the outcome `r` of the rest of a
/// walk; after a jump the walk ends at `resume`.
pub open spec fn continue_walk(
    acc: Seq<Seq<u8>>,
    r: Result<(Seq<Seq<u8>>, int), DnsError>,
    jumped: bool,
    resume: int,
) -> Result<(Seq<Seq<u8>>, int), DnsError> {
    match r {
        Ok((ls, e)) => Ok((acc + ls, if jumped { resume } else { e })),
        Err(err) => Err(err),
    }
}

/// Every label of the list has at least one byte.
pub open spec fn labels_nonempty(ls: Seq<Seq<u8>>) -> bool {
    forall|i: int| 0 <= i < ls.len() ==> #[trigger] ls[i].len() > 0
}

proof fn lemma_join_push(ls: Seq<Seq<u8>>, l: Seq<u8>)
    ensures
        join_with(ls.push(l), DOT) == (if ls.len() == 0 { l } else { join_with(ls, DOT).push(DOT) + l }),
{
    assert(ls.push(l).drop_last() =~= ls);
}

proof fn lemma_join_nonempty(ls: Seq<Seq<u8>>)
    requires
        labels_nonempty(ls),
        ls.len() > 0,
    ensures
        join_with(ls, DOT).len() > 0,
{
    if ls.len() > 1 {
        assert(ls.drop_last().len() > 0);
    }
}

/// A big-endian 16-bit value at `pos`, and the position after it.
pub open spec fn parse_u16(buf: Seq<u8>, pos: int) -> Result<(u16, int), DnsError> {
    if pos + 1 >= buf.len() {
        Err(out_of_bytes(2, buf, pos))
    } else {
        Ok((from_be16(buf[pos], buf[pos + 1]), pos + 2))
    }
}

/// A big-endian 32-bit value at `pos`, and the position after it.
pub open spec fn parse_u32(buf: Seq<u8>, pos: int) -> Result<(u32, int), DnsError> {
    if pos + 3 >= buf.len() {
        Err(out_of_bytes(4, buf, pos))
    } else {
        Ok((from_be32(buf[pos], buf[pos + 1], buf[pos + 2], buf[pos + 3]), pos + 4))
    }
}

/// A character string at `pos` (a length byte, then that many bytes, one
/// char per byte), and the position after it.
pub open spec fn parse_char_string(buf: Seq<u8>, pos: int) -> Result<(Seq<char>, int), DnsError> {
    match parse_u8(buf, pos) {
        Ok((n, p)) => if p + n > buf.len() {
            Err(out_of_bytes(1, buf, buf.len() as int))
        } else {
            Ok((bytes_chars(buf.subrange(p, p + n)), p + n))
        },
        Err(e) => Err(e),
    }
}

/// The record type with the given code, or `UnknownType`.
pub open spec fn type_from_code(v: u16) -> Result<Type, DnsError> {
    if v == 1 {
        Ok(Type::A)
    } else if v == 2 {
        Ok(Type::NS)
    } else if v == 5 {
        Ok(Type::CNAME)
    } else if v == 6 {
        Ok(Type::SOA)
    } else if v == 12 {
        Ok(Type::PTR)
    } else if v == 13 {
        Ok(Type::HINFO)
    } else if v == 15 {
        Ok(Type::MX)
    } else if v == 16 {
        Ok(Type::TXT)
    } else if v == 28 {
        Ok(Type::AAAA)
    } else {
        Err(DnsError::UnknownType(v))
    }
}

/// The class with the given code, or `UnknownClass`.
pub open spec fn class_from_code(v: u16) -> Result<Class, DnsError> {
    if v == 1 {
        Ok(Class::IN)
    } else if v == 3 {
        Ok(Class::CH)
    } else if v == 4 {
        Ok(Class::HS)
    } else {
        Err(DnsError::UnknownClass(v))
    }
}

/// The name at `pos` as the data of a record built by `f`.
pub open spec fn parse_name_rdata(
    buf: Seq<u8>,
    pos: int,
    f: spec_fn(Seq<char>) -> RDataV,
) -> Result<(RDataV, int), DnsError> {
    match parse_name(buf, pos) {
        Ok((n, p)) => Ok((f(n), p)),
        Err(e) => Err(e),
    }
}

/// Five big-endian 32-bit values from `pos` on, and the position after them.
pub open spec fn parse_u32x5(buf: Seq<u8>, pos: int) -> Result<((u32, u32, u32, u32, u32), int), DnsError> {
    match parse_u32(buf, pos) {
        Ok((a, p1)) => match parse_u32(buf, p1) {
            Ok((b, p2)) => match parse_u32(buf, p2) {
                Ok((c, p3)) => match parse_u32(buf, p3) {
                    Ok((d, p4)) => match parse_u32(buf, p4) {
                        Ok((e, p5)) => Ok(((a, b, c, d, e), p5)),
                        Err(err) => Err(err),
                    },
                    Err(err) => Err(err),
                },
                Err(err) => Err(err),
            },
            Err(err) => Err(err),
        },
        Err(err) => Err(err),
    }
}

/// The data of a record of type `t` at `pos`, and the position after it.
/// Addresses are read as big-endian 32-bit words and kept as their octets.
pub open spec fn parse_rdata(buf: Seq<u8>, pos: int, t: Type) -> Result<(RDataV, int), DnsError> {
    match t {
        Type::A => match parse_u32(buf, pos) {
            Ok((a, p)) => Ok((RDataV::A(be32(a)), p)),
            Err(e) => Err(e),
        },
        Type::AAAA => match parse_u32(buf, pos) {
            Ok((a, p1)) => match parse_u32(buf, p1) {
                Ok((b, p2)) => match parse_u32(buf, p2) {
                    Ok((c, p3)) => match parse_u32(buf, p3) {
                        Ok((d, p4)) => Ok((RDataV::AAAA(be32(a) + be32(b) + be32(c) + be32(d)), p4)),
                        Err(e) => Err(e),
                    },
                    Err(e) => Err(e),
                },
                Err(e) => Err(e),
            },
            Err(e) => Err(e),
        },
        Type::CNAME => parse_name_rdata(buf, pos, |n: Seq<char>| RDataV::CNAME(n)),
        Type::NS => parse_name_rdata(buf, pos, |n: Seq<char>| RDataV::NS(n)),
        Type::PTR => parse_name_rdata(buf, pos, |n: Seq<char>| RDataV::PTR(n)),
        Type::TXT => match parse_char_string(buf, pos) {
            Ok((s, p)) => Ok((RDataV::TXT(s), p)),
            Err(e) => Err(e),
        },
        Type::HINFO => match parse_char_string(buf, pos) {
            Ok((cpu, p1)) => match parse_char_string(buf, p1) {
                Ok((os, p2)) => Ok((RDataV::HINFO { cpu, os }, p2)),
                Err(e) => Err(e),
            },
            Err(e) => Err(e),
        },
        Type::MX => match parse_u16(buf, pos) {
            Ok((preference, p1)) => match parse_name(buf, p1) {
                Ok((exchange, p2)) => Ok((RDataV::MX { preference, exchange }, p2)),
                Err(e) => Err(e),
            },
            Err(e) => Err(e),
        },
        Type::SOA => match parse_name(buf, pos) {
            Ok((mname, p1)) => match parse_name(buf, p1) {
                Ok((rname, p2)) => match parse_u32x5(buf, p2) {
                    Ok(((serial, refresh, retry, expire, minimum), p3)) => Ok(
                        (
                            RDataV::SOA { mname, rname, serial, refresh, retry, expire, minimum },
                            p3,
                        ),
                    ),
                    Err(e) => Err(e),
                },
                Err(e) => Err(e),
            },
            Err(e) => Err(e),
        },
    }
}

/// A resource record at `pos`, and the position after it. The record data
/// must take exactly the number of bytes that the record declares.
pub open spec fn parse_rr(buf: Seq<u8>, pos: int) -> Result<(RRV, int), DnsError> {
    match parse_name(buf, pos) {
        Ok((name, p1)) => match parse_u16(buf, p1) {
            Ok((tc, p2)) => match type_from_code(tc) {
                Ok(rr_type) => match parse_u16(buf, p2) {
                    Ok((cc, p3)) => match class_from_code(cc) {
                        Ok(class) => match parse_u32(buf, p3) {
                            Ok((ttl, p4)) => match parse_u16(buf, p4) {
                                Ok((length, p5)) => match parse_rdata(buf, p5, rr_type) {
                                    Ok((rdata, p6)) => if p6 - p5 != length {
                                        Err(DnsError::InvalidRdataLength { record_type: rr_type, length })
                                    } else {
                                        Ok((RRV { name, rr_type, class, ttl, rdata }, p6))
                                    },
                                    Err(e) => Err(e),
                                },
                                Err(e) => Err(e),
                            },
                            Err(e) => Err(e),
                        },
                        Err(e) => Err(e),
                    },
                    Err(e) => Err(e),
                },
                Err(e) => Err(e),
            },
            Err(e) => Err(e),
        },
        Err(e) => Err(e),
    }
}

/// A question at `pos`, and the position after it.
pub open spec fn parse_question(buf: Seq<u8>, pos: int) -> Result<(QuestionV, int), DnsError> {
    match parse_name(buf, pos) {
        Ok((qname, p1)) => match parse_u16(buf, p1) {
            Ok((tc, p2)) => match type_from_code(tc) {
                Ok(qtype) => match parse_u16(buf, p2) {
                    Ok((cc, p3)) => match class_from_code(cc) {
                        Ok(qclass) => Ok((QuestionV { qname, qtype, qclass }, p3)),
                        Err(e) => Err(e),
                    },
                    Err(e) => Err(e),
                },
                Err(e) => Err(e),
            },
            Err(e) => Err(e),
        },
        Err(e) => Err(e),
    }
}

/// `n` questions one after another from `pos` on.
pub open spec fn parse_questions(buf: Seq<u8>, pos: int, n: nat) -> Result<(Seq<QuestionV>, int), DnsError>
    decreases n,
{
    if n == 0 {
        Ok((Seq::empty(), pos))
    } else {
        match parse_question(buf, pos) {
            Ok((q, p)) => match parse_questions(buf, p, (n - 1) as nat) {
                Ok((qs, p2)) => Ok((seq![q] + qs, p2)),
                Err(e) => Err(e),
            },
            Err(e) => Err(e),
        }
    }
}

/// `n` records one after another from `pos` on.
pub open spec fn parse_rrs(buf: Seq<u8>, pos: int, n: nat) -> Result<(Seq<RRV>, int), DnsError>
    decreases n,
{
    if n == 0 {
        Ok((Seq::empty(), pos))
    } else {
        match parse_rr(buf, pos) {
            Ok((r, p)) => match parse_rrs(buf, p, (n - 1) as nat) {
                Ok((rs, p2)) => Ok((seq![r] + rs, p2)),
                Err(e) => Err(e),
            },
            Err(e) => Err(e),
        }
    }
}

/// The items `acc` already read, followed by the outcome `r` of the rest.
pub open spec fn prepend<T>(acc: Seq<T>, r: Result<(Seq<T>, int), DnsError>) -> Result<(Seq<T>, int), DnsError> {
    match r {
        Ok((xs, p)) => Ok((acc + xs, p)),
        Err(e) => Err(e),
    }
}

/// The four sections of a message whose header `h` has been read, from
/// `pos` on.
pub open spec fn parse_sections(buf: Seq<u8>, pos: int, h: HeaderV) -> Result<MessageV, DnsError> {
    match parse_questions(buf, pos, h.qd_count as nat) {
        Ok((question, p1)) => match parse_rrs(buf, p1, h.an_count as nat) {
            Ok((answer, p2)) => match parse_rrs(buf, p2, h.ns_count as nat) {
                Ok((authority, p3)) => match parse_rrs(buf, p3, h.ar_count as nat) {
                    Ok((additional, _)) => Ok(MessageV { header: h, question, answer, authority, additional }),
                    Err(e) => Err(e),
                },
                Err(e) => Err(e),
            },
            Err(e) => Err(e),
        },
        Err(e) => Err(e),
    }
}

/// The twelve-byte header at the start of `buf`.
pub open spec fn parse_header(buf: Seq<u8>) -> Result<(HeaderV, int), DnsError> {
    match parse_u16(buf, 0) {
        Ok((id, p1)) => match parse_u16(buf, p1) {
            Ok((flags, p2)) => match parse_u16(buf, p2) {
                Ok((qd_count, p3)) => match parse_u16(buf, p3) {
                    Ok((an_count, p4)) => match parse_u16(buf, p4) {
                        Ok((ns_count, p5)) => match parse_u16(buf, p5) {
                            Ok((ar_count, p6)) => Ok((HeaderV { id, flags, qd_count, an_count, ns_count, ar_count }, p6)),
                            Err(e) => Err(e),
                        },
                        Err(e) => Err(e),
                    },
                    Err(e) => Err(e),
                },
                Err(e) => Err(e),
            },
            Err(e) => Err(e),
        },
        Err(e) => Err(e),
    }
}

/// The message that `buf` holds, read from its first byte; bytes after the
/// last record are ignored.
pub open spec fn parse_message(buf: Seq<u8>) -> Result<MessageV, DnsError> {
    match parse_header(buf) {
        Ok((h, p)) => parse_sections(buf, p, h),
        Err(e) => Err(e),
    }
}

/// A walk ends after the position it starts from.
pub proof fn lemma_name_walk_forward(buf: Seq<u8>, pos: int, last_jump: int)
    ensures
        name_walk(buf, pos, last_jump) matches Ok((_, e)) ==> pos < e,
    decreases last_jump, buf.len() - pos,
{
    if 0 <= pos < buf.len() {
        let first = buf[pos];
        if first & 0xc0u8 != 0xc0u8 && first != 0 {
            let end = pos + 1 + first;
            if end <= buf.len() {
                lemma_name_walk_forward(buf, end, last_jump);
            }
        }
    }
}

/// A name that is read successfully ends after the position it starts
/// from: past its zero byte, or past its first pointer.
pub proof fn lemma_parse_name_forward(buf: Seq<u8>, pos: int)
    ensures
        parse_name(buf, pos) matches Ok((_, e)) ==> pos < e,
{
    lemma_name_walk_forward(buf, pos, buf.len() as int);
}

/// Record data ends at or after the position it starts from.
pub proof fn lemma_parse_rdata_forward(buf: Seq<u8>, pos: int, t: Type)
    ensures
        parse_rdata(buf, pos, t) matches Ok((_, e)) ==> pos <= e,
{
    lemma_name_walk_forward(buf, pos, buf.len() as int);
    if let Ok((_, p1)) = parse_name(buf, pos) {
        lemma_name_walk_forward(buf, p1, buf.len() as int);
    }
    if let Ok((_, p1)) = parse_u16(buf, pos) {
        lemma_name_walk_forward(buf, p1, buf.len() as int);
    }
}

/// A position in a byte buffer.
struct Cursor<'a> {
    position: usize,
    buf: &'a [u8],
}

impl<'a> Cursor<'a> {
    fn read_u8(&mut self) -> (r: Result<u8, DnsError>)
        requires
            old(self).position <= old(self).buf@.len(),
        ensures
            final(self).buf == old(self).buf,
            final(self).position <= final(self).buf@.len(),
            match r {
                Ok(v) => parse_u8(old(self).buf@, old(self).position as int) == Ok::<(u8, int), DnsError>((v, final(self).position as int)),
                Err(e) => parse_u8(old(self).buf@, old(self).position as int) == Err::<(u8, int), DnsError>(e)
                    && final(self).position == old(self).position,
            },
    {
        if self.position >= self.buf.len() {
            Err(DnsError::OutOfBytes { needed: 1, available: self.buf.len() - self.position })
        } else {
            let data = self.buf[self.position];
            self.position += 1;
            Ok(data)
        }
    }

    fn read_u16(&mut self) -> (r: Result<u16, DnsError>)
        requires
            old(self).position <= old(self).buf@.len(),
        ensures
            final(self).buf == old(self).buf,
            final(self).position <= final(self).buf@.len(),
            match r {
                Ok(v) => parse_u16(old(self).buf@, old(self).position as int) == Ok::<(u16, int), DnsError>((v, final(self).position as int)),
                Err(e) => parse_u16(old(self).buf@, old(self).position as int) == Err::<(u16, int), DnsError>(e)
                    && final(self).position == old(self).position,
            },
    {
        if self.buf.len() - self.position <= 1 {
            Err(DnsError::OutOfBytes { needed: 2, available: self.buf.len() - self.position })
        } else {
            let top_byte = self.buf[self.position];
            let bottom_byte = self.buf[self.position + 1];
            let data = ((top_byte as u16) << 8u16) | (bottom_byte as u16);
            self.position += 2;
            Ok(data)
        }
    }

    fn read_u32(&mut self) -> (r: Result<u32, DnsError>)
        requires
            old(self).position <= old(self).buf@.len(),
        ensures
            final(self).buf == old(self).buf,
            final(self).position <= final(self).buf@.len(),
            match r {
                Ok(v) => parse_u32(old(self).buf@, old(self).position as int) == Ok::<(u32, int), DnsError>((v, final(self).position as int)),
                Err(e) => parse_u32(old(self).buf@, old(self).position as int) == Err::<(u32, int), DnsError>(e)
                    && final(self).position == old(self).position,
            },
    {
        if self.buf.len() - self.position <= 3 {
            Err(DnsError::OutOfBytes { needed: 4, available: self.buf.len() - self.position })
        } else {
            let byte0 = self.buf[self.position];
            let byte1 = self.buf[self.position + 1];
            let byte2 = self.buf[self.position + 2];
            let byte3 = self.buf[self.position + 3];
            let data = ((byte0 as u32) << 24u32) | ((byte1 as u32) << 16u32) | ((byte2 as u32)
                << 8u32) | (byte3 as u32);
            self.position += 4;
            Ok(data)
        }
    }

    fn read_character_string(&mut self) -> (r: Result<String, DnsError>)
        requires
            old(self).position <= old(self).buf@.len(),
        ensures
            final(self).buf == old(self).buf,
            final(self).position <= final(self).buf@.len(),
            match r {
                Ok(s) => parse_char_string(old(self).buf@, old(self).position as int) == Ok::<(Seq<char>, int), DnsError>((s@, final(self).position as int)),
                Err(e) => parse_char_string(old(self).buf@, old(self).position as int) == Err::<(Seq<char>, int), DnsError>(e),
            },
    {
        let ghost buf = self.buf@;
        let len = self.read_u8()?;
        let ghost p = self.position as int;
        let mut s = String::new();
        let mut k: u8 = 0;
        while k < len
            invariant
                self.buf == old(self).buf,
                buf == self.buf@,
                parse_u8(buf, old(self).position as int) == Ok::<(u8, int), DnsError>((len, p)),
                0 <= p <= buf.len(),
                k <= len,
                self.position == p + k,
                self.position <= buf.len(),
                s@ == bytes_chars(buf.subrange(p, self.position as int)),
            decreases len - k,
        {
            let ghost q = self.position as int;
            let byte = self.read_u8()?;
            push_char(&mut s, byte as char);
            k = k + 1;
            assert(buf.subrange(p, self.position as int) =~= buf.subrange(p, q).push(byte));
            assert(s@ =~= bytes_chars(buf.subrange(p, self.position as int)));
        }
        Ok(s)
    }

    fn read_name(&mut self) -> (r: Result<String, DnsError>)
        requires
            old(self).position <= old(self).buf@.len(),
        ensures
            final(self).buf == old(self).buf,
            final(self).position <= final(self).buf@.len(),
            match r {
                Ok(name) => parse_name(old(self).buf@, old(self).position as int) == Ok::<(Seq<char>, int), DnsError>((name@, final(self).position as int)),
                Err(e) => parse_name(old(self).buf@, old(self).position as int) == Err::<(Seq<char>, int), DnsError>(e),
            },
    {
        let ghost buf = self.buf@;
        let ghost start = self.position as int;
        let mut name = String::new();
        let mut jumped = false;
        let mut resume: usize = 0;
        let mut last_jump: usize = self.buf.len();
        let ghost mut acc: Seq<Seq<u8>> = Seq::empty();
        assert(acc + Seq::<Seq<u8>>::empty() =~= acc);
        loop
            invariant
                self.buf == old(self).buf,
                buf == self.buf@,
                start == old(self).position,
                self.position <= buf.len(),
                last_jump <= buf.len(),
                resume <= buf.len(),
                labels_nonempty(acc),
                name@ == labels_name(acc),
                name_walk(buf, start, buf.len() as int) == continue_walk(
                    acc,
                    name_walk(buf, self.position as int, last_jump as int),
                    jumped,
                    resume as int,
                ),
            decreases last_jump, buf.len() - self.position,
        {
            let ghost p = self.position as int;
            let pointer_pos = self.position;
            let first = self.read_u8()?;
            if first & 0xC0 == 0xC0 {
                let second = self.read_u8()?;
                let offset = (((first & 0x3F) as usize) << 8) | (second as usize);
                assert(offset == pointer_offset(first, second));
                if offset < last_jump && offset < pointer_pos {
                    if !jumped {
                        resume = self.position;
                        jumped = true;
                    }
                    self.position = offset;
                    last_jump = offset;
                    continue ;
                } else {
                    return Err(DnsError::PointerLoop);
                }
            }
            if first == 0 {
                if jumped {
                    self.position = resume;
                }
                assert(acc + Seq::<Seq<u8>>::empty() =~= acc);
                return Ok(name);
            }
            let ghost before = name@;
            if !name.as_str().is_empty() {
                push_char(&mut name, '.');
            }
            let ghost label_start = self.position as int;
            let mut k: u8 = 0;
            while k < first
                invariant
                    self.buf == old(self).buf,
                    buf == self.buf@,
                    label_start == p + 1,
                    0 <= p < buf.len(),
                    buf[p] == first,
                    first & 0xc0u8 != 0xc0u8,
                    first != 0,
                    start == old(self).position,
                    name_walk(buf, start, buf.len() as int) == continue_walk(
                        acc,
                        name_walk(buf, p, last_jump as int),
                        jumped,
                        resume as int,
                    ),
                    k <= first,
                    self.position == label_start + k,
                    self.position <= buf.len(),
                    name@ == (if acc.len() == 0 { before } else { before.push('.') }) + bytes_chars(
                        buf.subrange(label_start, self.position as int),
                    ),
                decreases first - k,
            {
                let ghost q = self.position as int;
                let byte = self.read_u8()?;
                push_char(&mut name, byte as char);
                k = k + 1;
                assert(buf.subrange(label_start, self.position as int) =~= buf.subrange(
                    label_start,
                    q,
                ).push(byte));
            }
            proof {
                let lab = buf.subrange(label_start, self.position as int);
                lemma_join_push(acc, lab);
                if acc.len() > 0 {
                    lemma_join_nonempty(acc);
                }
                assert(bytes_chars(join_with(acc.push(lab), DOT)) =~= name@);
                assert(acc + (seq![lab] + Seq::<Seq<u8>>::empty()) =~= acc.push(lab));
                assert forall|ls: Seq<Seq<u8>>| acc + (seq![lab] + ls) =~= acc.push(lab) + ls by {}
                acc = acc.push(lab);
            }
        }
    }
}

impl<'a> Cursor<'a> {
    fn read_rdata(&mut self, rtype: Type) -> (r: Result<RData, DnsError>)
        requires
            old(self).position <= old(self).buf@.len(),
        ensures
            final(self).buf == old(self).buf,
            final(self).position <= final(self).buf@.len(),
            match r {
                Ok(rd) => parse_rdata(old(self).buf@, old(self).position as int, rtype) == Ok::<(RDataV, int), DnsError>((rd@, final(self).position as int)),
                Err(e) => parse_rdata(old(self).buf@, old(self).position as int, rtype) == Err::<(RDataV, int), DnsError>(e)
                    && (rtype == Type::A ==> final(self).position == old(self).position),
            },
    {
        match rtype {
            Type::A => {
                let a = self.read_u32()?;
                Ok(RData::A(u32_to_be(a)))
            },
            Type::AAAA => {
                let a = u32_to_be(self.read_u32()?);
                let b = u32_to_be(self.read_u32()?);
                let c = u32_to_be(self.read_u32()?);
                let d = u32_to_be(self.read_u32()?);
                let aaaa = [
                    a[0], a[1], a[2], a[3], b[0], b[1], b[2], b[3],
                    c[0], c[1], c[2], c[3], d[0], d[1], d[2], d[3],
                ];
                assert(aaaa@ =~= a@ + b@ + c@ + d@);
                Ok(RData::AAAA(aaaa))
            },
            Type::CNAME => {
                let name = self.read_name()?;
                Ok(RData::CNAME(name))
            },
            Type::HINFO => {
                let cpu = self.read_character_string()?;
                let os = self.read_character_string()?;
                Ok(RData::HINFO { cpu, os })
            },
            Type::MX => {
                let preference = self.read_u16()?;
                let exchange = self.read_name()?;
                Ok(RData::MX { preference, exchange })
            },
            Type::NS => Ok(RData::NS(self.read_name()?)),
            Type::PTR => Ok(RData::PTR(self.read_name()?)),
            Type::SOA => {
                let mname = self.read_name()?;
                let rname = self.read_name()?;
                let serial = self.read_u32()?;
                let refresh = self.read_u32()?;
                let retry = self.read_u32()?;
                let expire = self.read_u32()?;
                let minimum = self.read_u32()?;
                Ok(RData::SOA { mname, rname, serial, refresh, retry, expire, minimum })
            },
            Type::TXT => Ok(RData::TXT(self.read_character_string()?)),
        }
    }
}

impl TryFrom<u16> for Type {
    type Error = DnsError;

    fn try_from(value: u16) -> (r: Result<Self, Self::Error>)
        ensures
            r == type_from_code(value),
    {
        match value {
            1 => Ok(Self::A),
            2 => Ok(Self::NS),
            5 => Ok(Self::CNAME),
            6 => Ok(Self::SOA),
            12 => Ok(Self::PTR),
            13 => Ok(Self::HINFO),
            15 => Ok(Self::MX),
            16 => Ok(Self::TXT),
            28 => Ok(Self::AAAA),
            _ => Err(DnsError::UnknownType(value)),
        }
    }
}

impl vstd::std_specs::convert::TryFromSpecImpl<u16> for Type {
    open spec fn obeys_try_from_spec() -> bool {
        true
    }

    open spec fn try_from_spec(v: u16) -> Result<Self, DnsError> {
        type_from_code(v)
    }
}

impl vstd::std_specs::convert::TryFromSpecImpl<u16> for Class {
    open spec fn obeys_try_from_spec() -> bool {
        true
    }

    open spec fn try_from_spec(v: u16) -> Result<Self, DnsError> {
        class_from_code(v)
    }
}

impl TryFrom<u16> for Class {
    type Error = DnsError;

    fn try_from(value: u16) -> (r: Result<Self, Self::Error>)
        ensures
            r == class_from_code(value),
    {
        match value {
            1 => Ok(Self::IN),
            3 => Ok(Self::CH),
            4 => Ok(Self::HS),
            _ => Err(DnsError::UnknownClass(value)),
        }
    }
}

/// Reads one resource record, checking that its data took exactly the
/// declared number of bytes.
fn read_rr(cursor: &mut Cursor) -> (r: Result<RR, DnsError>)
    requires
        old(cursor).position <= old(cursor).buf@.len(),
    ensures
        final(cursor).buf == old(cursor).buf,
        final(cursor).position <= final(cursor).buf@.len(),
        match r {
            Ok(rr) => parse_rr(old(cursor).buf@, old(cursor).position as int) == Ok::<(RRV, int), DnsError>((rr@, final(cursor).position as int)),
            Err(e) => parse_rr(old(cursor).buf@, old(cursor).position as int) == Err::<(RRV, int), DnsError>(e),
        },
{
    let rr_name = cursor.read_name()?;
    let rdata_type = cursor.read_u16()?;
    let rr_type = Type::try_from(rdata_type)?;
    let rdata_class = cursor.read_u16()?;
    let class = Class::try_from(rdata_class)?;
    let rr_ttl = cursor.read_u32()?;
    let rr_length = cursor.read_u16()?;
    let start = cursor.position;
    let rdata = cursor.read_rdata(rr_type)?;
    let position = cursor.position;
    proof {
        lemma_parse_rdata_forward(cursor.buf@, start as int, rr_type);
    }
    if position - start != rr_length as usize {
        return Err(DnsError::InvalidRdataLength { record_type: rr_type, length: rr_length });
    }
    Ok(RR::new(rr_name, rr_type, class, rr_ttl, rdata))
}

fn read_question(cursor: &mut Cursor) -> (r: Result<Question, DnsError>)
    requires
        old(cursor).position <= old(cursor).buf@.len(),
    ensures
        final(cursor).buf == old(cursor).buf,
        final(cursor).position <= final(cursor).buf@.len(),
        match r {
            Ok(q) => parse_question(old(cursor).buf@, old(cursor).position as int) == Ok::<(QuestionV, int), DnsError>((q@, final(cursor).position as int)),
            Err(e) => parse_question(old(cursor).buf@, old(cursor).position as int) == Err::<(QuestionV, int), DnsError>(e),
        },
{
    let question_name = cursor.read_name()?;
    let question_type = cursor.read_u16()?;
    let qtype = Type::try_from(question_type)?;
    let question_class = cursor.read_u16()?;
    let qclass = Class::try_from(question_class)?;
    Ok(Question::new(question_name, qtype, qclass))
}

fn read_rrs(cursor: &mut Cursor, count: u16) -> (r: Result<Vec<RR>, DnsError>)
    requires
        old(cursor).position <= old(cursor).buf@.len(),
    ensures
        final(cursor).buf == old(cursor).buf,
        final(cursor).position <= final(cursor).buf@.len(),
        match r {
            Ok(rs) => parse_rrs(old(cursor).buf@, old(cursor).position as int, count as nat) == Ok::<(Seq<RRV>, int), DnsError>((rr_views(rs@), final(cursor).position as int)),
            Err(e) => parse_rrs(old(cursor).buf@, old(cursor).position as int, count as nat) == Err::<(Seq<RRV>, int), DnsError>(e),
        },
{
    let ghost buf = cursor.buf@;
    let ghost p0 = cursor.position as int;
    let mut records: Vec<RR> = Vec::new();
    let mut i: u16 = 0;
    assert(rr_views(records@) + Seq::<RRV>::empty() =~= Seq::<RRV>::empty());
    while i < count
        invariant
            cursor.buf == old(cursor).buf,
            buf == cursor.buf@,
            p0 == old(cursor).position,
            cursor.position <= buf.len(),
            i <= count,
            parse_rrs(buf, p0, count as nat) == prepend(
                rr_views(records@),
                parse_rrs(buf, cursor.position as int, (count - i) as nat),
            ),
        decreases count - i,
    {
        let record = read_rr(cursor)?;
        let ghost before = rr_views(records@);
        records.push(record);
        proof {
            assert(rr_views(records@) =~= before.push(record@));
            assert forall|rs: Seq<RRV>| before + (seq![record@] + rs) =~= rr_views(records@) + rs by {}
        }
        i = i + 1;
    }
    assert(rr_views(records@) + Seq::<RRV>::empty() =~= rr_views(records@));
    Ok(records)
}

fn read_questions(cursor: &mut Cursor, count: u16) -> (r: Result<Vec<Question>, DnsError>)
    requires
        old(cursor).position <= old(cursor).buf@.len(),
    ensures
        final(cursor).buf == old(cursor).buf,
        final(cursor).position <= final(cursor).buf@.len(),
        match r {
            Ok(qs) => parse_questions(old(cursor).buf@, old(cursor).position as int, count as nat) == Ok::<(Seq<QuestionV>, int), DnsError>((question_views(qs@), final(cursor).position as int)),
            Err(e) => parse_questions(old(cursor).buf@, old(cursor).position as int, count as nat) == Err::<(Seq<QuestionV>, int), DnsError>(e),
        },
{
    let ghost buf = cursor.buf@;
    let ghost p0 = cursor.position as int;
    let mut questions: Vec<Question> = Vec::new();
    let mut i: u16 = 0;
    assert(question_views(questions@) + Seq::<QuestionV>::empty() =~= Seq::<QuestionV>::empty());
    while i < count
        invariant
            cursor.buf == old(cursor).buf,
            buf == cursor.buf@,
            p0 == old(cursor).position,
            cursor.position <= buf.len(),
            i <= count,
            parse_questions(buf, p0, count as nat) == prepend(
                question_views(questions@),
                parse_questions(buf, cursor.position as int, (count - i) as nat),
            ),
        decreases count - i,
    {
        let question = read_question(cursor)?;
        let ghost before = question_views(questions@);
        questions.push(question);
        proof {
            assert(question_views(questions@) =~= before.push(question@));
            assert forall|qs: Seq<QuestionV>| before + (seq![question@] + qs) =~= question_views(questions@) + qs by {}
        }
        i = i + 1;
    }
    assert(question_views(questions@) + Seq::<QuestionV>::empty() =~= question_views(questions@));
    Ok(questions)
}

/// Decoding is specified by `parse_message` over the message's view, in the
/// `ensures` of `try_from` below, not through this trait.
impl vstd::std_specs::convert::TryFromSpecImpl<&[u8]> for Message {
    open spec fn obeys_try_from_spec() -> bool {
        false
    }

    open spec fn try_from_spec(v: &[u8]) -> Result<Self, DnsError> {
        arbitrary()
    }
}

impl TryFrom<&[u8]> for Message {
    type Error = DnsError;

    fn try_from(value: &[u8]) -> (r: Result<Self, Self::Error>)
        ensures
            match r {
                Ok(m) => parse_message(value@) == Ok::<MessageV, DnsError>(m@),
                Err(e) => parse_message(value@) == Err::<MessageV, DnsError>(e),
            },
    {
        let mut cursor = Cursor { position: 0, buf: value };
        let header_id = cursor.read_u16()?;
        let header_flags = cursor.read_u16()?;
        let header_qd_count = cursor.read_u16()?;
        let header_an_count = cursor.read_u16()?;
        let header_ns_count = cursor.read_u16()?;
        let header_ar_count = cursor.read_u16()?;
        let header = Header::new(
            header_id,
            header_flags,
            header_qd_count,
            header_an_count,
            header_ns_count,
            header_ar_count,
        );
        let questions = read_questions(&mut cursor, header_qd_count)?;
        let answers = read_rrs(&mut cursor, header_an_count)?;
        let authorities = read_rrs(&mut cursor, header_ns_count)?;
        let additional = read_rrs(&mut cursor, header_ar_count)?;
        Ok(Message::new(header, questions, answers, authorities, additional))
    }
}

} // verus!
