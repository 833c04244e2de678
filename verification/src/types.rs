//! The DNS message model: header, questions, resource records.
use vstd::prelude::*;
use vstd::string::{StrSliceExecFns, StringExecFns};
use crate::errors::DnsError;
use crate::wire::{
    be16, be32, char_string_bytes, encode_dns_name, extend_bytes, name_bytes, u16_to_be, u32_to_be,
};

verus! {

/// Record types understood by this library.
#[derive(Debug, Clone, Copy, PartialEq, Eq, Structural)]
#[allow(clippy::upper_case_acronyms)]
pub enum Type {
    A,
    AAAA,
    NS,
    CNAME,
    SOA,
    PTR,
    HINFO,
    MX,
    TXT,
}

/// The numeric code of a record type on the wire.
pub open spec fn type_code(t: Type) -> u16 {
    match t {
        Type::A => 1,
        Type::AAAA => 28,
        Type::NS => 2,
        Type::CNAME => 5,
        Type::SOA => 6,
        Type::PTR => 12,
        Type::HINFO => 13,
        Type::MX => 15,
        Type::TXT => 16,
    }
}

impl Type {
    /// The numeric code of this record type.
    pub fn code(&self) -> (r: u16)
        ensures
            r == type_code(*self),
    {
        match self {
            Type::A => 1,
            Type::AAAA => 28,
            Type::NS => 2,
            Type::CNAME => 5,
            Type::SOA => 6,
            Type::PTR => 12,
            Type::HINFO => 13,
            Type::MX => 15,
            Type::TXT => 16,
        }
    }

    /// The code of this record type as two big-endian bytes.
    pub fn to_bytes(&self) -> (r: [u8; 2])
        ensures
            r@ == be16(type_code(*self)),
    {
        u16_to_be(self.code())
    }
}


/// The mnemonic of a record type, as `dig` prints it.
pub open spec fn type_mnemonic(t: Type) -> Seq<char> {
    match t {
        Type::A => "A"@,
        Type::AAAA => "AAAA"@,
        Type::NS => "NS"@,
        Type::CNAME => "CNAME"@,
        Type::SOA => "SOA"@,
        Type::PTR => "PTR"@,
        Type::HINFO => "HINFO"@,
        Type::MX => "MX"@,
        Type::TXT => "TXT"@,
    }
}

/// The record type whose mnemonic is `s`, trying the mnemonics in the order
/// A, AAAA, NS, CNAME, SOA, PTR, HINFO, MX, TXT.
pub open spec fn type_named(s: Seq<char>) -> Option<Type> {
    if s == "A"@ {
        Some(Type::A)
    } else if s == "AAAA"@ {
        Some(Type::AAAA)
    } else if s == "NS"@ {
        Some(Type::NS)
    } else if s == "CNAME"@ {
        Some(Type::CNAME)
    } else if s == "SOA"@ {
        Some(Type::SOA)
    } else if s == "PTR"@ {
        Some(Type::PTR)
    } else if s == "HINFO"@ {
        Some(Type::HINFO)
    } else if s == "MX"@ {
        Some(Type::MX)
    } else if s == "TXT"@ {
        Some(Type::TXT)
    } else {
        None
    }
}

/// Whether two strings hold the same characters.
fn same_chars(a: &str, b: &str) -> (r: bool)
    ensures
        r == (a@ == b@),
{
    let n = a.unicode_len();
    if n != b.unicode_len() {
        return false;
    }
    let mut i: usize = 0;
    while i < n
        invariant
            n == a@.len(),
            n == b@.len(),
            i <= n,
            forall|j: int| 0 <= j < i ==> a@[j] == b@[j],
        decreases n - i,
    {
        if a.get_char(i) != b.get_char(i) {
            return false;
        }
        i = i + 1;
    }
    assert(a@ =~= b@);
    true
}

impl Type {
    /// The mnemonic of this record type.
    pub fn name(&self) -> (r: &'static str)
        ensures
            r@ == type_mnemonic(*self),
    {
        match self {
            Type::A => "A",
            Type::AAAA => "AAAA",
            Type::NS => "NS",
            Type::CNAME => "CNAME",
            Type::SOA => "SOA",
            Type::PTR => "PTR",
            Type::HINFO => "HINFO",
            Type::MX => "MX",
            Type::TXT => "TXT",
        }
    }

    /// The record type with the mnemonic `name` (upper case), or
    /// `UnknownTypeString` holding `name`.
    pub fn get_type(name: &str) -> (r: Result<Type, DnsError>)
        ensures
            match type_named(name@) {
                Some(t) => r == Ok::<Type, DnsError>(t),
                None => r matches Err(DnsError::UnknownTypeString(s)) && s@ == name@,
            },
    {
        if same_chars(name, "A") {
            Ok(Type::A)
        } else if same_chars(name, "AAAA") {
            Ok(Type::AAAA)
        } else if same_chars(name, "NS") {
            Ok(Type::NS)
        } else if same_chars(name, "CNAME") {
            Ok(Type::CNAME)
        } else if same_chars(name, "SOA") {
            Ok(Type::SOA)
        } else if same_chars(name, "PTR") {
            Ok(Type::PTR)
        } else if same_chars(name, "HINFO") {
            Ok(Type::HINFO)
        } else if same_chars(name, "MX") {
            Ok(Type::MX)
        } else if same_chars(name, "TXT") {
            Ok(Type::TXT)
        } else {
            Err(DnsError::UnknownTypeString(String::from_str(name)))
        }
    }
}

/// Classes understood by this library.
#[derive(Debug, Clone, Copy, PartialEq, Eq, Structural)]
pub enum Class {
    IN,
    CH,
    HS,
}

/// The numeric code of a class on the wire.
pub open spec fn class_code(c: Class) -> u16 {
    match c {
        Class::IN => 1,
        Class::CH => 3,
        Class::HS => 4,
    }
}

impl Class {
    /// The numeric code of this class.
    pub fn code(&self) -> (r: u16)
        ensures
            r == class_code(*self),
    {
        match self {
            Class::IN => 1,
            Class::CH => 3,
            Class::HS => 4,
        }
    }

    /// The code of this class as two big-endian bytes.
    pub fn to_bytes(&self) -> (r: [u8; 2])
        ensures
            r@ == be16(class_code(*self)),
    {
        u16_to_be(self.code())
    }
}

/// The abstract content of a header: its six 16-bit fields.
pub struct HeaderV {
    pub id: u16,
    pub flags: u16,
    pub qd_count: u16,
    pub an_count: u16,
    pub ns_count: u16,
    pub ar_count: u16,
}

/// The fixed twelve-byte header of a DNS message.
#[derive(Debug, Clone, Copy)]
pub struct Header {
    id: u16,
    flags: u16,
    qd_count: u16,
    an_count: u16,
    ns_count: u16,
    ar_count: u16,
}

impl View for Header {
    type V = HeaderV;

    closed spec fn view(&self) -> HeaderV {
        HeaderV {
            id: self.id,
            flags: self.flags,
            qd_count: self.qd_count,
            an_count: self.an_count,
            ns_count: self.ns_count,
            ar_count: self.ar_count,
        }
    }
}

/// The twelve header bytes: the six fields in order, each big-endian.
pub open spec fn header_bytes(h: HeaderV) -> Seq<u8> {
    be16(h.id) + be16(h.flags) + be16(h.qd_count) + be16(h.an_count) + be16(h.ns_count) + be16(
        h.ar_count,
    )
}

/// Bit of the flags word that marks a truncated message (TC).
pub open spec fn tc_flag(flags: u16) -> bool {
    flags & 0x0200u16 != 0
}

impl Header {
    /// A header with the given fields.
    pub fn new(id: u16, flags: u16, qd_count: u16, an_count: u16, ns_count: u16, ar_count: u16) -> (r:
        Self)
        ensures
            r@ == (HeaderV { id, flags, qd_count, an_count, ns_count, ar_count }),
    {
        Self { id, flags, qd_count, an_count, ns_count, ar_count }
    }

    /// The header in wire form.
    pub fn to_bytes(&self) -> (r: [u8; 12])
        ensures
            r@ == header_bytes(self@),
    {
        let a = u16_to_be(self.id);
        let b = u16_to_be(self.flags);
        let c = u16_to_be(self.qd_count);
        let d = u16_to_be(self.an_count);
        let e = u16_to_be(self.ns_count);
        let f = u16_to_be(self.ar_count);
        let r = [a[0], a[1], b[0], b[1], c[0], c[1], d[0], d[1], e[0], e[1], f[0], f[1]];
        assert(r@ =~= header_bytes(self@));
        r
    }

    /// The message identifier, which a response must echo.
    pub fn id(&self) -> (r: u16)
        ensures
            r == self@.id,
    {
        self.id
    }

    /// Whether the server marked the message as truncated (the TC bit).
    pub fn tc_bit(&self) -> (r: bool)
        ensures
            r == tc_flag(self@.flags),
    {
        self.flags & 0x0200u16 != 0
    }
}

/// The abstract content of a question.
pub struct QuestionV {
    pub qname: Seq<char>,
    pub qtype: Type,
    pub qclass: Class,
}

/// One entry of the question section.
#[derive(Debug)]
pub struct Question {
    pub qname: String,
    pub qtype: Type,
    pub qclass: Class,
}

impl View for Question {
    type V = QuestionV;

    open spec fn view(&self) -> QuestionV {
        QuestionV { qname: self.qname@, qtype: self.qtype, qclass: self.qclass }
    }
}

/// A question on the wire: its name, then its type and class codes.
pub open spec fn question_bytes(q: QuestionV) -> Seq<u8> {
    name_bytes(q.qname) + be16(type_code(q.qtype)) + be16(class_code(q.qclass))
}

impl Question {
    /// A question for `qname` of the given type and class.
    pub fn new(qname: String, qtype: Type, qclass: Class) -> (r: Self)
        ensures
            r@ == (QuestionV { qname: qname@, qtype, qclass }),
    {
        Self { qname, qtype, qclass }
    }

    /// The question in wire form.
    pub fn to_bytes(&self) -> (r: Vec<u8>)
        ensures
            r@ == question_bytes(self@),
    {
        let mut bytes = encode_dns_name(self.qname.as_str());
        let qtype_bytes = self.qtype.to_bytes();
        let qclass_bytes = self.qclass.to_bytes();
        extend_bytes(&mut bytes, qtype_bytes.as_slice());
        extend_bytes(&mut bytes, qclass_bytes.as_slice());
        bytes
    }
}

/// The abstract content of record data.
pub enum RDataV {
    A(Seq<u8>),
    AAAA(Seq<u8>),
    CNAME(Seq<char>),
    HINFO { cpu: Seq<char>, os: Seq<char> },
    MX { preference: u16, exchange: Seq<char> },
    NS(Seq<char>),
    PTR(Seq<char>),
    SOA {
        mname: Seq<char>,
        rname: Seq<char>,
        serial: u32,
        refresh: u32,
        retry: u32,
        expire: u32,
        minimum: u32,
    },
    TXT(Seq<char>),
}

/// The data of a resource record. Addresses are held as their octets,
/// in network order.
#[derive(Debug, Clone, PartialEq, Eq)]
#[allow(clippy::upper_case_acronyms)]
pub enum RData {
    A([u8; 4]),
    AAAA([u8; 16]),
    CNAME(String),
    HINFO { cpu: String, os: String },
    MX { preference: u16, exchange: String },
    NS(String),
    PTR(String),
    SOA {
        mname: String,
        rname: String,
        serial: u32,
        refresh: u32,
        retry: u32,
        expire: u32,
        minimum: u32,
    },
    TXT(String),
}

impl View for RData {
    type V = RDataV;

    open spec fn view(&self) -> RDataV {
        match self {
            RData::A(ip) => RDataV::A(ip@),
            RData::AAAA(ip) => RDataV::AAAA(ip@),
            RData::CNAME(s) => RDataV::CNAME(s@),
            RData::HINFO { cpu, os } => RDataV::HINFO { cpu: cpu@, os: os@ },
            RData::MX { preference, exchange } => RDataV::MX {
                preference: *preference,
                exchange: exchange@,
            },
            RData::NS(s) => RDataV::NS(s@),
            RData::PTR(s) => RDataV::PTR(s@),
            RData::SOA { mname, rname, serial, refresh, retry, expire, minimum } => RDataV::SOA {
                mname: mname@,
                rname: rname@,
                serial: *serial,
                refresh: *refresh,
                retry: *retry,
                expire: *expire,
                minimum: *minimum,
            },
            RData::TXT(s) => RDataV::TXT(s@),
        }
    }
}

/// Record data on the wire.
pub open spec fn rdata_bytes(rd: RDataV) -> Seq<u8> {
    match rd {
        RDataV::A(ip) => ip,
        RDataV::AAAA(ip) => ip,
        RDataV::CNAME(s) => name_bytes(s),
        RDataV::NS(s) => name_bytes(s),
        RDataV::PTR(s) => name_bytes(s),
        RDataV::TXT(s) => char_string_bytes(s),
        RDataV::HINFO { cpu, os } => char_string_bytes(cpu) + char_string_bytes(os),
        RDataV::MX { preference, exchange } => be16(preference) + name_bytes(exchange),
        RDataV::SOA { mname, rname, serial, refresh, retry, expire, minimum } => name_bytes(mname)
            + name_bytes(rname) + be32(serial) + be32(refresh) + be32(retry) + be32(expire) + be32(
            minimum,
        ),
    }
}

/// Appends a character string: its byte length (modulo 256), then its bytes.
fn push_char_string(bytes: &mut Vec<u8>, s: &String)
    ensures
        final(bytes)@ == old(bytes)@ + char_string_bytes(s@),
{
    let b = s.as_str().as_bytes();
    bytes.push(b.len() as u8);
    extend_bytes(bytes, b);
    assert(final(bytes)@ =~= old(bytes)@ + char_string_bytes(s@));
}

/// Appends a name in wire form.
fn push_name(bytes: &mut Vec<u8>, name: &String)
    ensures
        final(bytes)@ == old(bytes)@ + name_bytes(name@),
{
    let mut n = encode_dns_name(name.as_str());
    bytes.append(&mut n);
}

/// Appends a 32-bit value, big-endian.
fn push_u32(bytes: &mut Vec<u8>, x: u32)
    ensures
        final(bytes)@ == old(bytes)@ + be32(x),
{
    let b = u32_to_be(x);
    extend_bytes(bytes, b.as_slice());
}

impl RData {
    /// The record data in wire form.
    fn to_bytes(&self) -> (r: Vec<u8>)
        ensures
            r@ == rdata_bytes(self@),
    {
        let mut bytes: Vec<u8> = Vec::new();
        match self {
            RData::A(ip) => extend_bytes(&mut bytes, ip.as_slice()),
            RData::AAAA(ip) => extend_bytes(&mut bytes, ip.as_slice()),
            RData::CNAME(s) => push_name(&mut bytes, s),
            RData::NS(s) => push_name(&mut bytes, s),
            RData::PTR(s) => push_name(&mut bytes, s),
            RData::TXT(s) => push_char_string(&mut bytes, s),
            RData::HINFO { cpu, os } => {
                push_char_string(&mut bytes, cpu);
                push_char_string(&mut bytes, os);
            },
            RData::MX { preference, exchange } => {
                let p = u16_to_be(*preference);
                extend_bytes(&mut bytes, p.as_slice());
                push_name(&mut bytes, exchange);
            },
            RData::SOA { mname, rname, serial, refresh, retry, expire, minimum } => {
                push_name(&mut bytes, mname);
                push_name(&mut bytes, rname);
                push_u32(&mut bytes, *serial);
                push_u32(&mut bytes, *refresh);
                push_u32(&mut bytes, *retry);
                push_u32(&mut bytes, *expire);
                push_u32(&mut bytes, *minimum);
            },
        }
        assert(bytes@ =~= rdata_bytes(self@));
        bytes
    }
}

/// The abstract content of a resource record.
pub struct RRV {
    pub name: Seq<char>,
    pub rr_type: Type,
    pub class: Class,
    pub ttl: u32,
    pub rdata: RDataV,
}

/// A resource record of the answer, authority or additional section.
#[derive(Debug)]
pub struct RR {
    name: String,
    rr_type: Type,
    class: Class,
    ttl: u32,
    rdata: RData,
}

impl View for RR {
    type V = RRV;

    closed spec fn view(&self) -> RRV {
        RRV {
            name: self.name@,
            rr_type: self.rr_type,
            class: self.class,
            ttl: self.ttl,
            rdata: self.rdata@,
        }
    }
}

/// A resource record on the wire: name, type, class, TTL, the length of the
/// record data (modulo 2^16), then the record data.
pub open spec fn rr_bytes(rr: RRV) -> Seq<u8> {
    name_bytes(rr.name) + be16(type_code(rr.rr_type)) + be16(class_code(rr.class)) + be32(rr.ttl)
        + be16(rdata_bytes(rr.rdata).len() as u16) + rdata_bytes(rr.rdata)
}

impl RR {
    /// A record with the given fields.
    pub fn new(name: String, rr_type: Type, class: Class, ttl: u32, rdata: RData) -> (r: Self)
        ensures
            r@ == (RRV { name: name@, rr_type, class, ttl, rdata: rdata@ }),
    {
        Self { name, rr_type, class, ttl, rdata }
    }

    /// The record in wire form.
    pub fn to_bytes(&self) -> (r: Vec<u8>)
        ensures
            r@ == rr_bytes(self@),
    {
        let mut bytes = encode_dns_name(self.name.as_str());
        let rr_type_bytes = self.rr_type.to_bytes();
        extend_bytes(&mut bytes, rr_type_bytes.as_slice());
        let class_bytes = self.class.to_bytes();
        extend_bytes(&mut bytes, class_bytes.as_slice());
        push_u32(&mut bytes, self.ttl);
        let rdata_bytes = self.rdata.to_bytes();
        let rd_length = rdata_bytes.len() as u16;
        let len_bytes = u16_to_be(rd_length);
        extend_bytes(&mut bytes, len_bytes.as_slice());
        extend_bytes(&mut bytes, rdata_bytes.as_slice());
        assert(bytes@ =~= rr_bytes(self@));
        bytes
    }

    /// The record data.
    pub fn rdata(&self) -> (r: &RData)
        ensures
            r@ == self@.rdata,
    {
        &self.rdata
    }
}


/// The abstract content of a message.
pub struct MessageV {
    pub header: HeaderV,
    pub question: Seq<QuestionV>,
    pub answer: Seq<RRV>,
    pub authority: Seq<RRV>,
    pub additional: Seq<RRV>,
}

/// The views of a sequence of questions.
pub open spec fn question_views(qs: Seq<Question>) -> Seq<QuestionV> {
    qs.map_values(|q: Question| q@)
}

/// The views of a sequence of records.
pub open spec fn rr_views(rs: Seq<RR>) -> Seq<RRV> {
    rs.map_values(|r: RR| r@)
}

/// A DNS message: a header and four sections.
#[derive(Debug)]
pub struct Message {
    header: Header,
    question: Vec<Question>,
    answer: Vec<RR>,
    authority: Vec<RR>,
    additional: Vec<RR>,
}

impl View for Message {
    type V = MessageV;

    closed spec fn view(&self) -> MessageV {
        MessageV {
            header: self.header@,
            question: question_views(self.question@),
            answer: rr_views(self.answer@),
            authority: rr_views(self.authority@),
            additional: rr_views(self.additional@),
        }
    }
}

impl Message {
    /// A message with the given header and sections.
    pub fn new(
        header: Header,
        question: Vec<Question>,
        answer: Vec<RR>,
        authority: Vec<RR>,
        additional: Vec<RR>,
    ) -> (r: Self)
        ensures
            r@ == (MessageV {
                header: header@,
                question: question_views(question@),
                answer: rr_views(answer@),
                authority: rr_views(authority@),
                additional: rr_views(additional@),
            }),
    {
        Self { header, question, answer, authority, additional }
    }

    /// The header.
    pub fn header(&self) -> (r: &Header)
        ensures
            r@ == self@.header,
    {
        &self.header
    }

    /// The question section.
    pub fn question(&self) -> (r: &[Question])
        ensures
            question_views(r@) == self@.question,
    {
        self.question.as_slice()
    }

    /// The answer section.
    pub fn answers(&self) -> (r: &[RR])
        ensures
            rr_views(r@) == self@.answer,
    {
        self.answer.as_slice()
    }

    /// The authority section.
    pub fn authority(&self) -> (r: &[RR])
        ensures
            rr_views(r@) == self@.authority,
    {
        self.authority.as_slice()
    }

    /// The additional section.
    pub fn additional(&self) -> (r: &[RR])
        ensures
            rr_views(r@) == self@.additional,
    {
        self.additional.as_slice()
    }
}

} // verus!
