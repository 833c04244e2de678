//! What the library promises across its functions: a message that the
//! encoder writes is read back unchanged by the decoder.
use vstd::prelude::*;
use vstd::utf8::{encode_utf8, is_ascii_chars, is_ascii_chars_encode_utf8};
use crate::decoder::{
    labels_name, name_walk, parse_char_string, parse_sections, pointer_offset, parse_header, parse_message, parse_name, parse_question,
    parse_questions, parse_rdata, parse_rr, parse_rrs, parse_u16, parse_u32, parse_u32x5, parse_u8,
};
use crate::encoder::{message_bytes, questions_bytes, rrs_bytes};
use crate::errors::DnsError;
use crate::types::{
    tc_flag, type_mnemonic, type_named, class_code, header_bytes, question_bytes, rdata_bytes, rr_bytes, type_code, HeaderV, MessageV,
    QuestionV, RDataV, RRV, Type,
};
use crate::text::bytes_chars;
use crate::utils::{
    check_label, check_labels, domain_verdict, first_invalid, label_char_ok, unicode_white_space,
};
use crate::wire::{
    be16, be32, char_string_bytes, encode_labels, from_be32, lemma_be16_roundtrip, lemma_be32_roundtrip,
    lemma_join_split, lemma_split_nonempty, name_bytes, name_labels, split_on, DOT,
};

verus! {

/// `buf` holds the bytes `s` from position `pos` on.
pub open spec fn holds_at(buf: Seq<u8>, pos: int, s: Seq<u8>) -> bool {
    &&& 0 <= pos
    &&& pos + s.len() <= buf.len()
    &&& buf.subrange(pos, pos + s.len()) == s
}

proof fn lemma_holds_split(buf: Seq<u8>, pos: int, a: Seq<u8>, b: Seq<u8>)
    requires
        holds_at(buf, pos, a + b),
    ensures
        holds_at(buf, pos, a),
        holds_at(buf, pos + a.len(), b),
{
    assert(buf.subrange(pos, pos + a.len()) =~= (a + b).subrange(0, a.len() as int));
    assert((a + b).subrange(0, a.len() as int) =~= a);
    assert(buf.subrange(pos + a.len(), pos + a.len() + b.len()) =~= (a + b).subrange(
        a.len() as int,
        (a + b).len() as int,
    ));
    assert((a + b).subrange(a.len() as int, (a + b).len() as int) =~= b);
}

proof fn lemma_holds_index(buf: Seq<u8>, pos: int, s: Seq<u8>, i: int)
    requires
        holds_at(buf, pos, s),
        0 <= i < s.len(),
    ensures
        buf[pos + i] == s[i],
{
    assert(buf.subrange(pos, pos + s.len())[i] == buf[pos + i]);
}

proof fn lemma_u16_at(buf: Seq<u8>, pos: int, x: u16)
    requires
        holds_at(buf, pos, be16(x)),
    ensures
        parse_u16(buf, pos) == Ok::<(u16, int), crate::errors::DnsError>((x, pos + 2)),
{
    lemma_holds_index(buf, pos, be16(x), 0);
    lemma_holds_index(buf, pos, be16(x), 1);
    lemma_be16_roundtrip(x);
}

proof fn lemma_u32_at(buf: Seq<u8>, pos: int, x: u32)
    requires
        holds_at(buf, pos, be32(x)),
    ensures
        parse_u32(buf, pos) == Ok::<(u32, int), crate::errors::DnsError>((x, pos + 4)),
{
    lemma_holds_index(buf, pos, be32(x), 0);
    lemma_holds_index(buf, pos, be32(x), 1);
    lemma_holds_index(buf, pos, be32(x), 2);
    lemma_holds_index(buf, pos, be32(x), 3);
    lemma_be32_roundtrip(x);
}

/// Four bytes read as a big-endian word and written back give the same bytes.
proof fn lemma_octets_at(buf: Seq<u8>, pos: int, o: Seq<u8>)
    requires
        o.len() == 4,
        holds_at(buf, pos, o),
    ensures
        parse_u32(buf, pos) matches Ok((a, p)) && p == pos + 4 && be32(a) == o,
{
    lemma_holds_index(buf, pos, o, 0);
    lemma_holds_index(buf, pos, o, 1);
    lemma_holds_index(buf, pos, o, 2);
    lemma_holds_index(buf, pos, o, 3);
    let b0 = o[0];
    let b1 = o[1];
    let b2 = o[2];
    let b3 = o[3];
    let a = from_be32(b0, b1, b2, b3);
    assert((a >> 24u32) as u8 == b0 && (a >> 16u32) as u8 == b1 && (a >> 8u32) as u8 == b2 && a as u8
        == b3) by (bit_vector)
        requires
            a == ((b0 as u32) << 24u32) | ((b1 as u32) << 16u32) | ((b2 as u32) << 8u32) | (b3 as u32),
    ;
    assert(be32(a) =~= o);
}

/// An ASCII character read back from its UTF-8 byte is the same character.
proof fn lemma_ascii_bytes_chars(s: Seq<char>)
    requires
        is_ascii_chars(s),
    ensures
        bytes_chars(encode_utf8(s)) == s,
        encode_utf8(s).len() == s.len(),
{
    is_ascii_chars_encode_utf8(s);
    let b = encode_utf8(s);
    assert forall|i: int| 0 <= i < s.len() implies #[trigger] bytes_chars(b)[i] == s[i] by {
        assert(s[i] as u8 == b[i]);
        assert('\0' <= s[i] <= '\u{7f}');
        let c = s[i];
        assert((c as u8) as char == c);
    }
    assert(bytes_chars(b) =~= s);
}

proof fn lemma_encode_labels_front(l: Seq<u8>, rest: Seq<Seq<u8>>)
    ensures
        encode_labels(seq![l] + rest) == seq![l.len() as u8] + l + encode_labels(rest),
    decreases rest.len(),
{
    let s = seq![l] + rest;
    if rest.len() == 0 {
        assert(s.drop_last() =~= Seq::<Seq<u8>>::empty());
        assert(s.last() == l);
        assert(encode_labels(Seq::<Seq<u8>>::empty()) =~= Seq::<u8>::empty());
        assert(encode_labels(rest) =~= Seq::<u8>::empty());
        assert(encode_labels(s) == encode_labels(s.drop_last()).push(s.last().len() as u8) + s.last());
        assert(encode_labels(s) =~= seq![l.len() as u8] + l + encode_labels(rest));
    } else {
        lemma_encode_labels_front(l, rest.drop_last());
        assert(s.drop_last() =~= seq![l] + rest.drop_last());
        assert(s.last() == rest.last());
        assert(encode_labels(s) =~= seq![l.len() as u8] + l + encode_labels(rest));
    }
}

/// Every label has between 1 and 191 bytes: it is written as its own length
/// byte, which neither ends the name nor reads as a pointer.
pub open spec fn labels_fit(ls: Seq<Seq<u8>>) -> bool {
    forall|i: int| 0 <= i < ls.len() ==> 0 < #[trigger] ls[i].len() < 192
}

proof fn lemma_walk_labels(buf: Seq<u8>, pos: int, last_jump: int, ls: Seq<Seq<u8>>)
    requires
        labels_fit(ls),
        holds_at(buf, pos, encode_labels(ls).push(0u8)),
    ensures
        name_walk(buf, pos, last_jump) == Ok::<(Seq<Seq<u8>>, int), crate::errors::DnsError>(
            (ls, pos + encode_labels(ls).len() + 1),
        ),
    decreases ls.len(),
{
    if ls.len() == 0 {
        lemma_holds_index(buf, pos, encode_labels(ls).push(0u8), 0);
        assert(encode_labels(ls) =~= Seq::<u8>::empty());
        assert(buf[pos] == 0);
        assert(0u8 & 0xc0u8 != 0xc0u8) by (bit_vector);
        assert(name_walk(buf, pos, last_jump) == Ok::<(Seq<Seq<u8>>, int), crate::errors::DnsError>(
            (Seq::empty(), pos + 1)));
        assert(ls =~= Seq::<Seq<u8>>::empty());
    } else {
        let l = ls[0];
        let rest = ls.drop_first();
        assert(ls =~= seq![l] + rest);
        lemma_encode_labels_front(l, rest);
        let first = l.len() as u8;
        assert(first as int == l.len());
        let e = encode_labels(ls).push(0u8);
        assert(e =~= seq![first] + l + encode_labels(rest).push(0u8));
        lemma_holds_split(buf, pos, seq![first] + l, encode_labels(rest).push(0u8));
        lemma_holds_split(buf, pos, seq![first], l);
        lemma_holds_index(buf, pos, seq![first], 0);
        assert(first < 192 ==> first & 0xc0u8 != 0xc0u8) by (bit_vector);
        assert(labels_fit(rest)) by {
            assert forall|i: int| 0 <= i < rest.len() implies 0 < #[trigger] rest[i].len() < 192 by {
                assert(rest[i] == ls[i + 1]);
            }
        }
        lemma_walk_labels(buf, pos + 1 + l.len(), last_jump, rest);
        assert(buf.subrange(pos + 1, pos + 1 + first) == l);
        assert(buf[pos] == first);
        assert(first != 0);
        assert(name_walk(buf, pos, last_jump) == Ok::<(Seq<Seq<u8>>, int), crate::errors::DnsError>(
            (seq![l] + rest, pos + 1 + l.len() + encode_labels(rest).len() + 1)));
    }
}

/// A name that the wire carries unchanged: ASCII, with labels of 1 to 191
/// bytes.
pub open spec fn name_fits(name: Seq<char>) -> bool {
    is_ascii_chars(name) && labels_fit(name_labels(name))
}

/// A name that fits, written at `pos` and followed by any bytes, is read
/// back unchanged, ending just after its wire form.
pub proof fn lemma_name_at(buf: Seq<u8>, pos: int, name: Seq<char>)
    requires
        name_fits(name),
        holds_at(buf, pos, name_bytes(name)),
    ensures
        parse_name(buf, pos) == Ok::<(Seq<char>, int), crate::errors::DnsError>(
            (name, pos + name_bytes(name).len()),
        ),
{
    lemma_walk_labels(buf, pos, buf.len() as int, name_labels(name));
    lemma_join_split(encode_utf8(name), DOT);
    lemma_ascii_bytes_chars(name);
}

/// A character string that the wire carries unchanged: ASCII, at most 255
/// bytes.
pub open spec fn char_string_fits(s: Seq<char>) -> bool {
    is_ascii_chars(s) && s.len() <= 255
}

/// A character string that fits, written at `pos`, is read back unchanged.
pub proof fn lemma_char_string_at(buf: Seq<u8>, pos: int, s: Seq<char>)
    requires
        char_string_fits(s),
        holds_at(buf, pos, char_string_bytes(s)),
    ensures
        parse_char_string(buf, pos) == Ok::<(Seq<char>, int), crate::errors::DnsError>(
            (s, pos + char_string_bytes(s).len()),
        ),
{
    lemma_ascii_bytes_chars(s);
    let b = encode_utf8(s);
    lemma_holds_split(buf, pos, seq![b.len() as u8], b);
    lemma_holds_index(buf, pos, seq![b.len() as u8], 0);
    assert(parse_u8(buf, pos) == Ok::<(u8, int), crate::errors::DnsError>((b.len() as u8, pos + 1)));
}

/// The record type whose data has the shape of `rd`.
pub open spec fn rdata_type(rd: RDataV) -> Type {
    match rd {
        RDataV::A(_) => Type::A,
        RDataV::AAAA(_) => Type::AAAA,
        RDataV::CNAME(_) => Type::CNAME,
        RDataV::HINFO { .. } => Type::HINFO,
        RDataV::MX { .. } => Type::MX,
        RDataV::NS(_) => Type::NS,
        RDataV::PTR(_) => Type::PTR,
        RDataV::SOA { .. } => Type::SOA,
        RDataV::TXT(_) => Type::TXT,
    }
}

/// Record data that the wire carries unchanged: addresses of four and
/// sixteen octets, names and character strings that fit.
pub open spec fn rdata_fits(rd: RDataV) -> bool {
    match rd {
        RDataV::A(o) => o.len() == 4,
        RDataV::AAAA(o) => o.len() == 16,
        RDataV::CNAME(n) => name_fits(n),
        RDataV::NS(n) => name_fits(n),
        RDataV::PTR(n) => name_fits(n),
        RDataV::TXT(t) => char_string_fits(t),
        RDataV::HINFO { cpu, os } => char_string_fits(cpu) && char_string_fits(os),
        RDataV::MX { preference, exchange } => name_fits(exchange),
        RDataV::SOA { mname, rname, .. } => name_fits(mname) && name_fits(rname),
    }
}

/// Record data that fits, written at `pos`, is read back unchanged as data
/// of its own type, ending just after its wire form.
pub proof fn lemma_rdata_at(buf: Seq<u8>, pos: int, rd: RDataV)
    requires
        rdata_fits(rd),
        holds_at(buf, pos, rdata_bytes(rd)),
    ensures
        parse_rdata(buf, pos, rdata_type(rd)) == Ok::<(RDataV, int), DnsError>(
            (rd, pos + rdata_bytes(rd).len()),
        ),
{
    match rd {
        RDataV::A(o) => {
            lemma_octets_at(buf, pos, o);
        },
        RDataV::AAAA(o) => {
            let o0 = o.subrange(0, 4);
            let o1 = o.subrange(4, 8);
            let o2 = o.subrange(8, 12);
            let o3 = o.subrange(12, 16);
            assert(o =~= o0 + o1 + o2 + o3);
            lemma_holds_split(buf, pos, o0 + o1 + o2, o3);
            lemma_holds_split(buf, pos, o0 + o1, o2);
            lemma_holds_split(buf, pos, o0, o1);
            lemma_octets_at(buf, pos, o0);
            lemma_octets_at(buf, pos + 4, o1);
            lemma_octets_at(buf, pos + 8, o2);
            lemma_octets_at(buf, pos + 12, o3);
        },
        RDataV::CNAME(n) => {
            lemma_name_at(buf, pos, n);
        },
        RDataV::NS(n) => {
            lemma_name_at(buf, pos, n);
        },
        RDataV::PTR(n) => {
            lemma_name_at(buf, pos, n);
        },
        RDataV::TXT(t) => {
            lemma_char_string_at(buf, pos, t);
        },
        RDataV::HINFO { cpu, os } => {
            lemma_holds_split(buf, pos, char_string_bytes(cpu), char_string_bytes(os));
            lemma_char_string_at(buf, pos, cpu);
            lemma_char_string_at(buf, pos + char_string_bytes(cpu).len(), os);
        },
        RDataV::MX { preference, exchange } => {
            lemma_holds_split(buf, pos, be16(preference), name_bytes(exchange));
            lemma_u16_at(buf, pos, preference);
            lemma_name_at(buf, pos + 2, exchange);
        },
        RDataV::SOA { mname, rname, serial, refresh, retry, expire, minimum } => {
            let a = name_bytes(mname);
            let b = name_bytes(rname);
            let p2 = pos + a.len() + b.len();
            lemma_holds_split(buf, pos, a + b + be32(serial) + be32(refresh) + be32(retry) + be32(expire), be32(minimum));
            lemma_holds_split(buf, pos, a + b + be32(serial) + be32(refresh) + be32(retry), be32(expire));
            lemma_holds_split(buf, pos, a + b + be32(serial) + be32(refresh), be32(retry));
            lemma_holds_split(buf, pos, a + b + be32(serial), be32(refresh));
            lemma_holds_split(buf, pos, a + b, be32(serial));
            lemma_holds_split(buf, pos, a, b);
            lemma_name_at(buf, pos, mname);
            lemma_name_at(buf, pos + a.len(), rname);
            lemma_u32_at(buf, p2, serial);
            lemma_u32_at(buf, p2 + 4, refresh);
            lemma_u32_at(buf, p2 + 8, retry);
            lemma_u32_at(buf, p2 + 12, expire);
            lemma_u32_at(buf, p2 + 16, minimum);
            assert(parse_u32x5(buf, p2) == Ok::<((u32, u32, u32, u32, u32), int), DnsError>(
                ((serial, refresh, retry, expire, minimum), p2 + 20)));
        },
    }
}

/// A record that the wire carries unchanged: its name and data fit, its
/// type is the one its data has, and its data takes at most 65535 bytes.
pub open spec fn rr_fits(rr: RRV) -> bool {
    &&& name_fits(rr.name)
    &&& rdata_fits(rr.rdata)
    &&& rr.rr_type == rdata_type(rr.rdata)
    &&& rdata_bytes(rr.rdata).len() <= 0xffff
}

/// A record that fits, written at `pos`, is read back unchanged, ending
/// just after its wire form.
pub proof fn lemma_rr_at(buf: Seq<u8>, pos: int, rr: RRV)
    requires
        rr_fits(rr),
        holds_at(buf, pos, rr_bytes(rr)),
    ensures
        parse_rr(buf, pos) == Ok::<(RRV, int), DnsError>((rr, pos + rr_bytes(rr).len())),
{
    let n = name_bytes(rr.name);
    let t = be16(type_code(rr.rr_type));
    let c = be16(class_code(rr.class));
    let ttl = be32(rr.ttl);
    let d = rdata_bytes(rr.rdata);
    let len = be16(d.len() as u16);
    lemma_holds_split(buf, pos, n + t + c + ttl + len, d);
    lemma_holds_split(buf, pos, n + t + c + ttl, len);
    lemma_holds_split(buf, pos, n + t + c, ttl);
    lemma_holds_split(buf, pos, n + t, c);
    lemma_holds_split(buf, pos, n, t);
    lemma_name_at(buf, pos, rr.name);
    let p1 = pos + n.len();
    lemma_u16_at(buf, p1, type_code(rr.rr_type));
    lemma_u16_at(buf, p1 + 2, class_code(rr.class));
    lemma_u32_at(buf, p1 + 4, rr.ttl);
    lemma_u16_at(buf, p1 + 8, d.len() as u16);
    lemma_rdata_at(buf, p1 + 10, rr.rdata);
    assert(crate::decoder::type_from_code(type_code(rr.rr_type)) == Ok::<Type, DnsError>(rr.rr_type));
    assert(crate::decoder::class_from_code(class_code(rr.class)) == Ok::<crate::types::Class, DnsError>(rr.class));
}

/// A question whose name fits, written at `pos`, is read back unchanged.
pub proof fn lemma_question_at(buf: Seq<u8>, pos: int, q: QuestionV)
    requires
        name_fits(q.qname),
        holds_at(buf, pos, question_bytes(q)),
    ensures
        parse_question(buf, pos) == Ok::<(QuestionV, int), DnsError>((q, pos + question_bytes(q).len())),
{
    let n = name_bytes(q.qname);
    let t = be16(type_code(q.qtype));
    let c = be16(class_code(q.qclass));
    lemma_holds_split(buf, pos, n + t, c);
    lemma_holds_split(buf, pos, n, t);
    lemma_name_at(buf, pos, q.qname);
    lemma_u16_at(buf, pos + n.len(), type_code(q.qtype));
    lemma_u16_at(buf, pos + n.len() + 2, class_code(q.qclass));
    assert(crate::decoder::type_from_code(type_code(q.qtype)) == Ok::<Type, DnsError>(q.qtype));
    assert(crate::decoder::class_from_code(class_code(q.qclass)) == Ok::<crate::types::Class, DnsError>(q.qclass));
}

proof fn lemma_questions_bytes_front(q: QuestionV, rest: Seq<QuestionV>)
    ensures
        questions_bytes(seq![q] + rest) == question_bytes(q) + questions_bytes(rest),
    decreases rest.len(),
{
    let s = seq![q] + rest;
    if rest.len() == 0 {
        assert(s.drop_last() =~= Seq::<QuestionV>::empty());
        assert(questions_bytes(Seq::<QuestionV>::empty()) =~= Seq::<u8>::empty());
        assert(questions_bytes(s) =~= question_bytes(q) + questions_bytes(rest));
    } else {
        lemma_questions_bytes_front(q, rest.drop_last());
        assert(s.drop_last() =~= seq![q] + rest.drop_last());
        assert(questions_bytes(s) =~= question_bytes(q) + questions_bytes(rest));
    }
}

proof fn lemma_rrs_bytes_front(r: RRV, rest: Seq<RRV>)
    ensures
        rrs_bytes(seq![r] + rest) == rr_bytes(r) + rrs_bytes(rest),
    decreases rest.len(),
{
    let s = seq![r] + rest;
    if rest.len() == 0 {
        assert(s.drop_last() =~= Seq::<RRV>::empty());
        assert(rrs_bytes(Seq::<RRV>::empty()) =~= Seq::<u8>::empty());
        assert(rrs_bytes(s) =~= rr_bytes(r) + rrs_bytes(rest));
    } else {
        lemma_rrs_bytes_front(r, rest.drop_last());
        assert(s.drop_last() =~= seq![r] + rest.drop_last());
        assert(rrs_bytes(s) =~= rr_bytes(r) + rrs_bytes(rest));
    }
}

/// Every question's name fits.
pub open spec fn questions_fit(qs: Seq<QuestionV>) -> bool {
    forall|i: int| 0 <= i < qs.len() ==> name_fits(#[trigger] qs[i].qname)
}

/// Every record fits.
pub open spec fn rrs_fit(rs: Seq<RRV>) -> bool {
    forall|i: int| 0 <= i < rs.len() ==> rr_fits(#[trigger] rs[i])
}

proof fn lemma_questions_at(buf: Seq<u8>, pos: int, qs: Seq<QuestionV>)
    requires
        questions_fit(qs),
        holds_at(buf, pos, questions_bytes(qs)),
    ensures
        parse_questions(buf, pos, qs.len()) == Ok::<(Seq<QuestionV>, int), DnsError>(
            (qs, pos + questions_bytes(qs).len()),
        ),
    decreases qs.len(),
{
    if qs.len() > 0 {
        let q = qs[0];
        let rest = qs.drop_first();
        assert(qs =~= seq![q] + rest);
        lemma_questions_bytes_front(q, rest);
        lemma_holds_split(buf, pos, question_bytes(q), questions_bytes(rest));
        assert(name_fits(qs[0].qname));
        lemma_question_at(buf, pos, q);
        assert(questions_fit(rest)) by {
            assert forall|i: int| 0 <= i < rest.len() implies name_fits(#[trigger] rest[i].qname) by {
                assert(rest[i] == qs[i + 1]);
            }
        }
        lemma_questions_at(buf, pos + question_bytes(q).len(), rest);
        assert(parse_questions(buf, pos, qs.len()) == Ok::<(Seq<QuestionV>, int), DnsError>(
            (seq![q] + rest, pos + question_bytes(q).len() + questions_bytes(rest).len())));
    } else {
        assert(questions_bytes(qs) =~= Seq::<u8>::empty());
        assert(qs =~= Seq::<QuestionV>::empty());
    }
}

proof fn lemma_rrs_at(buf: Seq<u8>, pos: int, rs: Seq<RRV>)
    requires
        rrs_fit(rs),
        holds_at(buf, pos, rrs_bytes(rs)),
    ensures
        parse_rrs(buf, pos, rs.len()) == Ok::<(Seq<RRV>, int), DnsError>(
            (rs, pos + rrs_bytes(rs).len()),
        ),
    decreases rs.len(),
{
    if rs.len() > 0 {
        let r = rs[0];
        let rest = rs.drop_first();
        assert(rs =~= seq![r] + rest);
        lemma_rrs_bytes_front(r, rest);
        lemma_holds_split(buf, pos, rr_bytes(r), rrs_bytes(rest));
        assert(rr_fits(rs[0]));
        lemma_rr_at(buf, pos, r);
        assert(rrs_fit(rest)) by {
            assert forall|i: int| 0 <= i < rest.len() implies rr_fits(#[trigger] rest[i]) by {
                assert(rest[i] == rs[i + 1]);
            }
        }
        lemma_rrs_at(buf, pos + rr_bytes(r).len(), rest);
        assert(parse_rrs(buf, pos, rs.len()) == Ok::<(Seq<RRV>, int), DnsError>(
            (seq![r] + rest, pos + rr_bytes(r).len() + rrs_bytes(rest).len())));
    } else {
        assert(rrs_bytes(rs) =~= Seq::<u8>::empty());
        assert(rs =~= Seq::<RRV>::empty());
    }
}

proof fn lemma_header_at(buf: Seq<u8>, h: HeaderV)
    requires
        holds_at(buf, 0, header_bytes(h)),
    ensures
        parse_header(buf) == Ok::<(HeaderV, int), DnsError>((h, 12)),
{
    let a = be16(h.id);
    let b = be16(h.flags);
    let c = be16(h.qd_count);
    let d = be16(h.an_count);
    let e = be16(h.ns_count);
    let f = be16(h.ar_count);
    lemma_holds_split(buf, 0, a + b + c + d + e, f);
    lemma_holds_split(buf, 0, a + b + c + d, e);
    lemma_holds_split(buf, 0, a + b + c, d);
    lemma_holds_split(buf, 0, a + b, c);
    lemma_holds_split(buf, 0, a, b);
    lemma_u16_at(buf, 0, h.id);
    lemma_u16_at(buf, 2, h.flags);
    lemma_u16_at(buf, 4, h.qd_count);
    lemma_u16_at(buf, 6, h.an_count);
    lemma_u16_at(buf, 8, h.ns_count);
    lemma_u16_at(buf, 10, h.ar_count);
}

/// A message that the wire carries unchanged: the header counts the
/// entries of each section, and every name, string and record fits.
pub open spec fn message_fits(m: MessageV) -> bool {
    &&& m.header.qd_count as nat == m.question.len()
    &&& m.header.an_count as nat == m.answer.len()
    &&& m.header.ns_count as nat == m.authority.len()
    &&& m.header.ar_count as nat == m.additional.len()
    &&& questions_fit(m.question)
    &&& rrs_fit(m.answer)
    &&& rrs_fit(m.authority)
    &&& rrs_fit(m.additional)
}

proof fn lemma_sections_at(buf: Seq<u8>, pos: int, m: MessageV)
    requires
        message_fits(m),
        holds_at(
            buf,
            pos,
            questions_bytes(m.question) + rrs_bytes(m.answer) + rrs_bytes(m.authority) + rrs_bytes(
                m.additional,
            ),
        ),
    ensures
        parse_sections(buf, pos, m.header) == Ok::<MessageV, DnsError>(m),
{
    let q = questions_bytes(m.question);
    let an = rrs_bytes(m.answer);
    let ns = rrs_bytes(m.authority);
    let ar = rrs_bytes(m.additional);
    lemma_holds_split(buf, pos, q + an + ns, ar);
    lemma_holds_split(buf, pos, q + an, ns);
    lemma_holds_split(buf, pos, q, an);
    lemma_questions_at(buf, pos, m.question);
    lemma_rrs_at(buf, pos + q.len(), m.answer);
    lemma_rrs_at(buf, pos + q.len() + an.len(), m.authority);
    lemma_rrs_at(buf, pos + q.len() + an.len() + ns.len(), m.additional);
}

proof fn lemma_message_bytes_split(m: MessageV)
    ensures
        holds_at(message_bytes(m), 0, header_bytes(m.header)),
        holds_at(
            message_bytes(m),
            12,
            questions_bytes(m.question) + rrs_bytes(m.answer) + rrs_bytes(m.authority) + rrs_bytes(
                m.additional,
            ),
        ),
{
    let buf = message_bytes(m);
    let h = header_bytes(m.header);
    let rest = questions_bytes(m.question) + rrs_bytes(m.answer) + rrs_bytes(m.authority) + rrs_bytes(
        m.additional,
    );
    assert(buf =~= h + rest);
    assert(buf.subrange(0, buf.len() as int) =~= buf);
    lemma_holds_split(buf, 0, h, rest);
}

proof fn lemma_message_after_header(buf: Seq<u8>, h: HeaderV)
    requires
        parse_header(buf) == Ok::<(HeaderV, int), DnsError>((h, 12)),
    ensures
        parse_message(buf) == parse_sections(buf, 12, h),
{
}

/// Decoding what the encoder wrote gives back the message: for every
/// message whose header counts its sections, whose names are ASCII with
/// labels of 1 to 191 bytes, whose character strings are ASCII of at most
/// 255 bytes, whose record types match their data and whose record data
/// take at most 65535 bytes, `parse_message(message_bytes(m)) == Ok(m)`.
#[verifier::spinoff_prover]
pub proof fn lemma_decode_encode(m: MessageV)
    requires
        message_fits(m),
    ensures
        parse_message(message_bytes(m)) == Ok::<MessageV, DnsError>(m),
{
    let buf = message_bytes(m);
    lemma_message_bytes_split(m);
    lemma_header_at(buf, m.header);
    lemma_sections_at(buf, 12, m);
    lemma_message_after_header(buf, m.header);
}

/// A compression pointer that does not point backwards, to before its own
/// position, is refused: the name it starts reads as `PointerLoop`. So a
/// pointer to itself or to any later byte never makes the decoder loop.
pub proof fn lemma_forward_pointer_refused(buf: Seq<u8>, pos: int)
    requires
        0 <= pos,
        pos + 1 < buf.len(),
        buf[pos] & 0xc0u8 == 0xc0u8,
        pointer_offset(buf[pos], buf[pos + 1]) >= pos,
    ensures
        parse_name(buf, pos) == Err::<(Seq<char>, int), DnsError>(DnsError::PointerLoop),
{
}

/// Reading back the header bytes gives the header.
pub proof fn lemma_header_roundtrip(h: HeaderV)
    ensures
        parse_header(header_bytes(h)) == Ok::<(HeaderV, int), DnsError>((h, 12)),
{
    let b = header_bytes(h);
    assert(b.subrange(0, b.len() as int) =~= b);
    lemma_header_at(b, h);
}

/// A name that fits is read back from its wire form unchanged.
pub proof fn lemma_name_roundtrip(name: Seq<char>)
    requires
        name_fits(name),
    ensures
        parse_name(name_bytes(name), 0) == Ok::<(Seq<char>, int), DnsError>(
            (name, name_bytes(name).len() as int),
        ),
{
    let b = name_bytes(name);
    assert(b.subrange(0, b.len() as int) =~= b);
    lemma_name_at(b, 0, name);
}

/// Every record type and class is read back from its code.
pub proof fn lemma_codes_roundtrip(t: Type, c: crate::types::Class)
    ensures
        crate::decoder::type_from_code(type_code(t)) == Ok::<Type, DnsError>(t),
        crate::decoder::class_from_code(class_code(c)) == Ok::<crate::types::Class, DnsError>(c),
{
}

proof fn lemma_split_lengths<A, B>(t: Seq<A>, b: Seq<B>, sa: A, sb: B)
    requires
        t.len() == b.len(),
        forall|i: int| 0 <= i < t.len() ==> (t[i] == sa <==> b[i] == sb),
    ensures
        split_on(b, sb).len() == split_on(t, sa).len(),
        forall|i: int|
            0 <= i < split_on(t, sa).len() ==> #[trigger] split_on(b, sb)[i].len() == split_on(
                t,
                sa,
            )[i].len(),
    decreases t.len(),
{
    if t.len() > 0 {
        lemma_split_lengths(t.drop_last(), b.drop_last(), sa, sb);
        lemma_split_nonempty(t.drop_last(), sa);
        assert(t.last() == t[t.len() - 1]);
        assert(b.last() == b[b.len() - 1]);
    }
}

proof fn lemma_encode_utf8_len(s: Seq<char>)
    ensures
        encode_utf8(s).len() >= s.len(),
    decreases s.len(),
{
    if s.len() > 0 {
        lemma_encode_utf8_len(s.drop_first());
    }
}

proof fn lemma_check_labels_each(ls: Seq<Seq<char>>)
    requires
        check_labels(ls) == Ok::<(), Seq<char>>(()),
    ensures
        forall|i: int| 0 <= i < ls.len() ==> check_label(#[trigger] ls[i]) == Ok::<(), Seq<char>>(()),
    decreases ls.len(),
{
    if ls.len() > 0 {
        lemma_check_labels_each(ls.drop_first());
        assert forall|i: int| 0 <= i < ls.len() implies check_label(#[trigger] ls[i]) == Ok::<
            (),
            Seq<char>,
        >(()) by {
            if i > 0 {
                assert(ls[i] == ls.drop_first()[i - 1]);
            }
        }
    }
}

/// A domain name that passes `validate_input` and is ASCII fits the wire:
/// as a query name it is read back unchanged.
pub proof fn lemma_validated_name_fits(s: Seq<char>)
    requires
        domain_verdict(s) == Ok::<(), Seq<char>>(()),
        is_ascii_chars(s),
    ensures
        name_fits(s),
{
    let ls = split_on(s, '.');
    let b = encode_utf8(s);
    lemma_check_labels_each(ls);
    is_ascii_chars_encode_utf8(s);
    assert forall|i: int| 0 <= i < s.len() implies (s[i] == '.' <==> b[i] == DOT) by {
        assert(s[i] as u8 == b[i]);
        assert('\0' <= s[i] <= '\u{7f}');
        let c = s[i];
        assert((c as u8) as char == c);
    }
    lemma_split_lengths(s, b, '.', DOT);
    assert forall|i: int| 0 <= i < name_labels(s).len() implies 0 < #[trigger] name_labels(s)[i].len()
        < 192 by {
        assert(check_label(ls[i]) == Ok::<(), Seq<char>>(()));
        lemma_encode_utf8_len(ls[i]);
    }
}

proof fn lemma_split_covers<A>(s: Seq<A>, sep: A, i: int)
    requires
        0 <= i < s.len(),
        s[i] != sep,
    ensures
        exists|j: int, k: int|
            0 <= j < split_on(s, sep).len() && 0 <= k < split_on(s, sep)[j].len()
                && #[trigger] split_on(s, sep)[j][k] == s[i],
    decreases s.len(),
{
    let p = s.drop_last();
    lemma_split_nonempty(p, sep);
    let r = split_on(p, sep);
    assert(s.last() == s[s.len() - 1]);
    if i == s.len() - 1 {
        let l = r.last().push(s.last());
        assert(split_on(s, sep)[r.len() - 1] == l);
        assert(l[r.last().len() as int] == s[i]);
    } else {
        assert(p[i] == s[i]);
        lemma_split_covers(p, sep, i);
        let (j, k) = choose|j: int, k: int|
            0 <= j < r.len() && 0 <= k < r[j].len() && #[trigger] r[j][k] == p[i];
        if s.last() == sep {
            assert(split_on(s, sep)[j] == r[j]);
        } else {
            if j == r.len() - 1 {
                assert(split_on(s, sep)[j] == r.last().push(s.last()));
                assert(split_on(s, sep)[j][k] == r[j][k]);
            } else {
                assert(split_on(s, sep)[j] == r[j]);
            }
        }
    }
}

proof fn lemma_first_invalid_none(l: Seq<char>, k: int)
    requires
        first_invalid(l) is None,
        0 <= k < l.len(),
    ensures
        label_char_ok(l[k]),
    decreases l.len(),
{
    if k > 0 {
        lemma_first_invalid_none(l.drop_first(), k - 1);
        assert(l.drop_first()[k - 1] == l[k]);
    }
}

/// A domain name that holds a whitespace character anywhere, at either end
/// or inside, is refused by `validate_input`.
pub proof fn lemma_whitespace_refused(s: Seq<char>, i: int)
    requires
        0 <= i < s.len(),
        unicode_white_space(s[i]),
    ensures
        domain_verdict(s) is Err,
{
    if encode_utf8(s).len() <= 253 {
        let ls = split_on(s, '.');
        if let Ok(u) = check_labels(ls) {
            assert(u == ());
            lemma_check_labels_each(ls);
            lemma_split_covers(s, '.', i);
            let (j, k) = choose|j: int, k: int|
                0 <= j < ls.len() && 0 <= k < ls[j].len() && #[trigger] ls[j][k] == s[i];
            assert(check_label(ls[j]) is Ok);
            lemma_first_invalid_none(ls[j], k);
        }
    }
}

proof fn lemma_encode_labels_split_len(b: Seq<u8>)
    ensures
        encode_labels(split_on(b, DOT)).len() == b.len() + 1,
    decreases b.len(),
{
    if b.len() == 0 {
        let r = split_on(b, DOT);
        assert(r =~= seq![Seq::<u8>::empty()]);
        assert(r.drop_last() =~= Seq::<Seq<u8>>::empty());
        assert(encode_labels(r.drop_last()).len() == 0);
        assert(encode_labels(r).len() == encode_labels(r.drop_last()).len() + 1 + r.last().len());
    } else {
        let p = b.drop_last();
        lemma_encode_labels_split_len(p);
        lemma_split_nonempty(p, DOT);
        let r = split_on(p, DOT);
        assert(encode_labels(r).len() == encode_labels(r.drop_last()).len() + 1 + r.last().len());
        if b.last() == DOT {
            let r2 = r.push(Seq::<u8>::empty());
            assert(r2.drop_last() =~= r);
            assert(encode_labels(r2).len() == encode_labels(r2.drop_last()).len() + 1 + r2.last().len());
        } else {
            let r2 = r.update(r.len() - 1, r.last().push(b.last()));
            assert(r2.drop_last() =~= r.drop_last());
            assert(encode_labels(r2).len() == encode_labels(r2.drop_last()).len() + 1 + r2.last().len());
        }
    }
}

/// A name takes two bytes more on the wire than its UTF-8 bytes: one length
/// byte per label stands for the dots, plus the first length byte and the
/// final zero byte.
pub proof fn lemma_name_bytes_len(name: Seq<char>)
    ensures
        name_bytes(name).len() == encode_utf8(name).len() + 2,
{
    lemma_encode_labels_split_len(encode_utf8(name));
}

/// The two bytes of a compression pointer to offset `q` (below 0x4000).
pub open spec fn pointer_bytes(q: u16) -> Seq<u8> {
    seq![0xc0u8 | ((q >> 8u16) as u8), q as u8]
}

/// Walking over labels that fit, then on from the byte after them.
proof fn lemma_walk_label_prefix(
    buf: Seq<u8>,
    pos: int,
    last_jump: int,
    ls: Seq<Seq<u8>>,
    rest: Seq<u8>,
)
    requires
        labels_fit(ls),
        holds_at(buf, pos, encode_labels(ls) + rest),
    ensures
        name_walk(buf, pos, last_jump) == (match name_walk(
            buf,
            pos + encode_labels(ls).len(),
            last_jump,
        ) {
            Ok((l2, e)) => Ok::<(Seq<Seq<u8>>, int), DnsError>((ls + l2, e)),
            Err(x) => Err::<(Seq<Seq<u8>>, int), DnsError>(x),
        }),
    decreases ls.len(),
{
    if ls.len() == 0 {
        assert(encode_labels(ls) =~= Seq::<u8>::empty());
        match name_walk(buf, pos, last_jump) {
            Ok((l2, e)) => {
                assert(ls + l2 =~= l2);
            },
            Err(_) => {},
        }
    } else {
        let l = ls[0];
        let tail = ls.drop_first();
        assert(ls =~= seq![l] + tail);
        lemma_encode_labels_front(l, tail);
        let first = l.len() as u8;
        assert(first as int == l.len());
        assert(encode_labels(ls) + rest =~= (seq![first] + l) + (encode_labels(tail) + rest));
        lemma_holds_split(buf, pos, seq![first] + l, encode_labels(tail) + rest);
        lemma_holds_split(buf, pos, seq![first], l);
        lemma_holds_index(buf, pos, seq![first], 0);
        assert(first < 192 ==> first & 0xc0u8 != 0xc0u8) by (bit_vector);
        assert(labels_fit(tail)) by {
            assert forall|i: int| 0 <= i < tail.len() implies 0 < #[trigger] tail[i].len() < 192 by {
                assert(tail[i] == ls[i + 1]);
            }
        }
        let next = pos + 1 + l.len();
        lemma_walk_label_prefix(buf, next, last_jump, tail, rest);
        assert(buf.subrange(pos + 1, pos + 1 + first) == l);
        assert(buf[pos] == first);
        assert(next + encode_labels(tail).len() == pos + encode_labels(ls).len());
        match name_walk(buf, next + encode_labels(tail).len(), last_jump) {
            Ok((l2, e)) => {
                assert(seq![l] + (tail + l2) =~= ls + l2);
            },
            Err(_) => {},
        }
    }
}

/// A backward pointer, below the last jump, is followed to its target.
proof fn lemma_walk_pointer(buf: Seq<u8>, p: int, last_jump: int, q: u16)
    requires
        holds_at(buf, p, pointer_bytes(q)),
        q < 0x4000,
        q < p,
        q < last_jump,
    ensures
        name_walk(buf, p, last_jump) == (match name_walk(buf, q as int, q as int) {
            Ok((l, _)) => Ok::<(Seq<Seq<u8>>, int), DnsError>((l, p + 2)),
            Err(x) => Err::<(Seq<Seq<u8>>, int), DnsError>(x),
        }),
{
    lemma_holds_index(buf, p, pointer_bytes(q), 0);
    lemma_holds_index(buf, p, pointer_bytes(q), 1);
    let b0 = 0xc0u8 | ((q >> 8u16) as u8);
    let b1 = q as u8;
    assert(b0 & 0xc0u8 == 0xc0u8 && (((b0 & 0x3fu8) as usize) << 8usize) | (b1 as usize) == q as usize)
        by (bit_vector)
        requires
            q < 0x4000u16,
            b0 == 0xc0u8 | ((q >> 8u16) as u8),
            b1 == q as u8,
    ;
    assert(pointer_offset(buf[p], buf[p + 1]) == q as usize);
}

/// The labels of the segments from the `i`th on, in order.
pub open spec fn chain_labels(segs: Seq<(int, Seq<Seq<u8>>)>, i: int) -> Seq<Seq<u8>>
    decreases segs.len() - i,
{
    if i < 0 || i >= segs.len() {
        Seq::empty()
    } else {
        segs[i].1 + chain_labels(segs, i + 1)
    }
}

/// `buf` holds a name written as a chain of segments: each segment, at its
/// position, is a list of labels that fit followed by a compression pointer
/// to the next segment, which starts further back in the buffer than the
/// one pointing to it; the last segment ends with the zero byte.
pub open spec fn chain_laid_out(buf: Seq<u8>, segs: Seq<(int, Seq<Seq<u8>>)>) -> bool {
    &&& segs.len() >= 1
    &&& forall|i: int| 0 <= i < segs.len() ==> labels_fit(#[trigger] segs[i].1)
    &&& forall|j: int|
        1 <= j < segs.len() ==> {
            &&& 0 <= #[trigger] segs[j].0 < segs[j - 1].0
            &&& segs[j].0 < 0x4000
            &&& holds_at(
                buf,
                segs[j - 1].0,
                encode_labels(segs[j - 1].1) + pointer_bytes(segs[j].0 as u16),
            )
        }
    &&& holds_at(buf, segs.last().0, encode_labels(segs.last().1).push(0u8))
}

/// Where the name that starts at segment `i` ends as written there: after
/// its zero byte, or after its pointer.
pub open spec fn chain_end(segs: Seq<(int, Seq<Seq<u8>>)>, i: int) -> int {
    segs[i].0 + encode_labels(segs[i].1).len() + if i == segs.len() - 1 {
        1int
    } else {
        2int
    }
}

proof fn lemma_chain_walk(buf: Seq<u8>, segs: Seq<(int, Seq<Seq<u8>>)>, i: int, last_jump: int)
    requires
        chain_laid_out(buf, segs),
        0 <= i < segs.len(),
        i + 1 < segs.len() ==> segs[i + 1].0 < last_jump,
    ensures
        name_walk(buf, segs[i].0, last_jump) == Ok::<(Seq<Seq<u8>>, int), DnsError>(
            (chain_labels(segs, i), chain_end(segs, i)),
        ),
    decreases segs.len() - i,
{
    let ls = segs[i].1;
    assert(labels_fit(segs[i].1));
    if i == segs.len() - 1 {
        lemma_walk_labels(buf, segs[i].0, last_jump, ls);
        assert(chain_labels(segs, i + 1) =~= Seq::<Seq<u8>>::empty());
        assert(chain_labels(segs, i) =~= ls);
    } else {
        let q = segs[i + 1].0;
        let p = segs[i].0 + encode_labels(ls).len();
        assert(0 <= q < segs[(i + 1) - 1].0 && q < 0x4000);
        assert(holds_at(buf, segs[(i + 1) - 1].0, encode_labels(segs[(i + 1) - 1].1) + pointer_bytes(q as u16)));
        assert((i + 1) - 1 == i);
        lemma_walk_label_prefix(buf, segs[i].0, last_jump, ls, pointer_bytes(q as u16));
        lemma_holds_split(buf, segs[i].0, encode_labels(ls), pointer_bytes(q as u16));
        lemma_walk_pointer(buf, p, last_jump, q as u16);
        if i + 2 < segs.len() {
            assert(0 <= segs[i + 2].0 < segs[(i + 2) - 1].0);
            assert((i + 2) - 1 == i + 1);
        }
        lemma_chain_walk(buf, segs, i + 1, q);
    }
}

/// A name written with compression pointers is read as all of its labels:
/// for every chain of segments, each a list of labels followed by a
/// pointer further back (the last ending with the zero byte), the name read
/// at the first segment is the labels of every segment joined with dots in
/// order, and the reading ends just after the first segment's pointer (or
/// its zero byte, when there is no pointer). Jumps may follow jumps, as
/// long as each one goes further back.
pub proof fn lemma_pointer_chain(buf: Seq<u8>, segs: Seq<(int, Seq<Seq<u8>>)>)
    requires
        chain_laid_out(buf, segs),
    ensures
        parse_name(buf, segs[0].0) == Ok::<(Seq<char>, int), DnsError>(
            (labels_name(chain_labels(segs, 0)), chain_end(segs, 0)),
        ),
{
    if segs.len() > 1 {
        assert(0 <= segs[1].0 < segs[1 - 1].0);
    }
    lemma_chain_walk(buf, segs, 0, buf.len() as int);
}

/// A pointer to a name written without pointers reads as that name: the
/// name read at `pos` is the one read at its target `q`, and the reading
/// ends after the pointer's two bytes.
pub proof fn lemma_pointer_to_name(buf: Seq<u8>, pos: int, q: u16, ls: Seq<Seq<u8>>)
    requires
        holds_at(buf, pos, pointer_bytes(q)),
        q < 0x4000,
        q < pos,
        labels_fit(ls),
        holds_at(buf, q as int, encode_labels(ls).push(0u8)),
    ensures
        parse_name(buf, q as int) is Ok,
        parse_name(buf, pos) == Ok::<(Seq<char>, int), DnsError>(
            (parse_name(buf, q as int)->Ok_0.0, pos + 2),
        ),
{
    let empty: Seq<Seq<u8>> = Seq::empty();
    assert(encode_labels(empty) =~= Seq::<u8>::empty());
    assert(encode_labels(empty) + pointer_bytes(q) =~= pointer_bytes(q));
    let segs = seq![(pos, empty), (q as int, ls)];
    assert(chain_laid_out(buf, segs));
    lemma_pointer_chain(buf, segs);
    assert(chain_labels(segs, 2) =~= Seq::<Seq<u8>>::empty());
    assert(chain_labels(segs, 1) =~= ls);
    assert(chain_labels(segs, 0) =~= ls);
    let single = seq![(q as int, ls)];
    assert(chain_laid_out(buf, single));
    lemma_pointer_chain(buf, single);
    assert(chain_labels(single, 1) =~= Seq::<Seq<u8>>::empty());
    assert(chain_labels(single, 0) =~= ls);
}

/// Reading back a record type's mnemonic gives the type: for every record
/// type `t`, `Type::get_type` applied to the text `t.name()` returns
/// `Ok(t)`, as `type_named(type_mnemonic(t)) == Some(t)`.
pub proof fn lemma_get_type_inverts_name(t: Type)
    ensures
        type_named(type_mnemonic(t)) == Some(t),
{
    reveal_strlit("A");
    reveal_strlit("AAAA");
    reveal_strlit("NS");
    reveal_strlit("CNAME");
    reveal_strlit("SOA");
    reveal_strlit("PTR");
    reveal_strlit("HINFO");
    reveal_strlit("MX");
    reveal_strlit("TXT");
    let a = "A"@;
    let aaaa = "AAAA"@;
    let ns = "NS"@;
    let cname = "CNAME"@;
    let soa = "SOA"@;
    let ptr = "PTR"@;
    let hinfo = "HINFO"@;
    let mx = "MX"@;
    let txt = "TXT"@;
    assert(a.len() == 1 && aaaa.len() == 4 && ns.len() == 2 && cname.len() == 5 && soa.len() == 3
        && ptr.len() == 3 && hinfo.len() == 5 && mx.len() == 2 && txt.len() == 3);
    assert(ns[0] == 'N' && mx[0] == 'M');
    assert(soa[0] == 'S' && ptr[0] == 'P' && txt[0] == 'T');
    assert(cname[0] == 'C' && hinfo[0] == 'H');
    assert(ns != mx);
    assert(soa != ptr && soa != txt && ptr != txt);
    assert(cname != hinfo);
}

/// Every ASCII letter, upper or lower case, every digit and the hyphen may
/// stand in a label.
pub proof fn lemma_label_chars_allowed(c: char)
    requires
        'A' <= c <= 'Z' || 'a' <= c <= 'z' || '0' <= c <= '9' || c == '-',
    ensures
        label_char_ok(c),
{
}

/// Whether a message is truncated depends on the TC bit (0x0200) alone:
/// two flag words that agree on that bit agree on truncation, whatever
/// their other bits; the bit alone marks truncation and no bits mark none.
pub proof fn lemma_tc_bit_alone(f: u16, g: u16)
    ensures
        f & 0x0200u16 == g & 0x0200u16 ==> tc_flag(f) == tc_flag(g),
        tc_flag(0x0200u16),
        !tc_flag(0u16),
{
    assert(f & 0x0200u16 == g & 0x0200u16 ==> ((f & 0x0200u16 != 0) == (g & 0x0200u16 != 0)))
        by (bit_vector);
    assert(0x0200u16 & 0x0200u16 != 0) by (bit_vector);
    assert(0u16 & 0x0200u16 == 0) by (bit_vector);
}

} // verus!
