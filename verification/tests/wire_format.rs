use lib::builder::{create_message, generate_id};
use lib::encoder::encode_message;
use lib::errors::DnsError;
use lib::types::{Class, Header, Message, Question, RData, Type, RR};
use lib::wire::encode_dns_name;

fn sample_message() -> Message {
    let header = Header::new(0xbeef, 0x8180, 1, 9, 1, 1);
    let question = Question::new("example.com".to_string(), Type::A, Class::IN);
    let answers = vec![
        RR::new("example.com".to_string(), Type::A, Class::IN, 300, RData::A([93, 184, 216, 34])),
        RR::new(
            "example.com".to_string(),
            Type::AAAA,
            Class::IN,
            300,
            RData::AAAA([0x26, 0x06, 0x28, 0x00, 0x02, 0x20, 0, 1, 0x2, 0x48, 0x18, 0x93, 0x25, 0xc8, 0x19, 0x46]),
        ),
        RR::new("www.example.com".to_string(), Type::CNAME, Class::IN, 60, RData::CNAME("example.com".to_string())),
        RR::new(
            "example.com".to_string(),
            Type::HINFO,
            Class::CH,
            1,
            RData::HINFO { cpu: "x86".to_string(), os: "linux".to_string() },
        ),
        RR::new(
            "example.com".to_string(),
            Type::MX,
            Class::IN,
            3600,
            RData::MX { preference: 10, exchange: "mail.example.com".to_string() },
        ),
        RR::new("example.com".to_string(), Type::NS, Class::IN, 86400, RData::NS("a.iana-servers.net".to_string())),
        RR::new("34.216.184.93.in-addr.arpa".to_string(), Type::PTR, Class::IN, 5, RData::PTR("example.com".to_string())),
        RR::new("example.com".to_string(), Type::TXT, Class::HS, 7, RData::TXT("v=spf1 -all".to_string())),
        RR::new(
            "example.com".to_string(),
            Type::SOA,
            Class::IN,
            3600,
            RData::SOA {
                mname: "ns.icann.org".to_string(),
                rname: "noc.dns.icann.org".to_string(),
                serial: 2024081461,
                refresh: 7200,
                retry: 3600,
                expire: 1209600,
                minimum: 3600,
            },
        ),
    ];
    let authority = vec![RR::new("example.com".to_string(), Type::NS, Class::IN, 10, RData::NS("b.iana-servers.net".to_string()))];
    let additional = vec![RR::new("b.iana-servers.net".to_string(), Type::A, Class::IN, 10, RData::A([199, 43, 133, 53]))];
    Message::new(header, vec![question], answers, authority, additional)
}

#[test]
fn encode_name_labels() {
    assert_eq!(
        encode_dns_name("google.com"),
        vec![6, b'g', b'o', b'o', b'g', b'l', b'e', 3, b'c', b'o', b'm', 0]
    );
    assert_eq!(encode_dns_name(""), vec![0, 0]);
    assert_eq!(encode_dns_name("a.b."), vec![1, b'a', 1, b'b', 0, 0]);
}

#[test]
fn header_bytes_big_endian() {
    let h = Header::new(0x1234, 0x0100, 1, 2, 3, 0xfffe);
    assert_eq!(h.to_bytes(), [0x12, 0x34, 0x01, 0x00, 0, 1, 0, 2, 0, 3, 0xff, 0xfe]);
    assert_eq!(h.id(), 0x1234);
    assert!(!h.tc_bit());
    assert!(Header::new(1, 0x0200, 0, 0, 0, 0).tc_bit());
}

#[test]
fn type_and_class_codes() {
    assert_eq!(Type::A.to_bytes(), [0, 1]);
    assert_eq!(Type::AAAA.to_bytes(), [0, 28]);
    assert_eq!(Type::NS.to_bytes(), [0, 2]);
    assert_eq!(Type::CNAME.to_bytes(), [0, 5]);
    assert_eq!(Type::SOA.to_bytes(), [0, 6]);
    assert_eq!(Type::PTR.to_bytes(), [0, 12]);
    assert_eq!(Type::HINFO.to_bytes(), [0, 13]);
    assert_eq!(Type::MX.to_bytes(), [0, 15]);
    assert_eq!(Type::TXT.to_bytes(), [0, 16]);
    assert_eq!(Class::IN.to_bytes(), [0, 1]);
    assert_eq!(Class::CH.to_bytes(), [0, 3]);
    assert_eq!(Class::HS.to_bytes(), [0, 4]);
    assert_eq!(Type::try_from(28u16).unwrap(), Type::AAAA);
    assert!(matches!(Type::try_from(99u16), Err(DnsError::UnknownType(99))));
    assert_eq!(Class::try_from(4u16).unwrap(), Class::HS);
    assert!(matches!(Class::try_from(2u16), Err(DnsError::UnknownClass(2))));
}

#[test]
fn question_bytes() {
    let q = Question::new("a.io".to_string(), Type::MX, Class::IN);
    assert_eq!(q.to_bytes(), vec![1, b'a', 2, b'i', b'o', 0, 0, 15, 0, 1]);
}

#[test]
fn record_bytes() {
    let rr = RR::new("a".to_string(), Type::A, Class::IN, 0x01020304, RData::A([10, 0, 0, 1]));
    assert_eq!(rr.to_bytes(), vec![1, b'a', 0, 0, 1, 0, 1, 1, 2, 3, 4, 0, 4, 10, 0, 0, 1]);
    let txt = RR::new("a".to_string(), Type::TXT, Class::IN, 0, RData::TXT("hi".to_string()));
    assert_eq!(txt.to_bytes(), vec![1, b'a', 0, 0, 16, 0, 1, 0, 0, 0, 0, 0, 3, 2, b'h', b'i']);
    assert!(matches!(txt.rdata(), RData::TXT(s) if s == "hi"));
}

#[test]
fn message_roundtrip() {
    let m = sample_message();
    let bytes = encode_message(&m);
    let decoded = Message::try_from(bytes.as_slice()).unwrap();
    assert_eq!(format!("{:?}", decoded), format!("{:?}", m));
    assert_eq!(encode_message(&decoded), bytes);
}

#[test]
fn query_message() {
    let m = create_message("google.com".to_string(), Type::MX, true);
    let bytes = encode_message(&m);
    assert_eq!(&bytes[2..12], &[0x01, 0x00, 0, 1, 0, 0, 0, 0, 0, 0]);
    assert_eq!(&bytes[12..], &[6, b'g', b'o', b'o', b'g', b'l', b'e', 3, b'c', b'o', b'm', 0, 0, 15, 0, 1]);
    assert_eq!(m.question().len(), 1);
    assert_eq!(m.question()[0].qname, "google.com");
    assert_eq!(m.question()[0].qtype, Type::MX);
    assert_eq!(m.question()[0].qclass, Class::IN);
    assert!(m.answers().is_empty() && m.authority().is_empty() && m.additional().is_empty());
    let plain = create_message("a.b".to_string(), Type::A, false);
    assert_eq!(encode_message(&plain)[2..4], [0, 0]);
    let decoded = Message::try_from(bytes.as_slice()).unwrap();
    assert_eq!(decoded.header().id(), m.header().id());
    let _ = generate_id();
}

#[test]
fn validated_name_survives_the_wire() {
    let name = "mail.example-1.org";
    assert_eq!(lib::utils::validate_input(name), Ok(()));
    let m = create_message(name.to_string(), Type::AAAA, true);
    let decoded = Message::try_from(encode_message(&m).as_slice()).unwrap();
    assert_eq!(decoded.question()[0].qname, name);
    assert_eq!(decoded.question()[0].qtype, Type::AAAA);
}

#[test]
fn record_data_is_read_back_equal() {
    let m = sample_message();
    let decoded = Message::try_from(encode_message(&m).as_slice()).unwrap();
    for (a, b) in m.answers().iter().zip(decoded.answers()) {
        assert_eq!(a.rdata(), b.rdata());
    }
    assert_eq!(decoded.answers()[8].rdata(), &RData::SOA {
        mname: "ns.icann.org".to_string(),
        rname: "noc.dns.icann.org".to_string(),
        serial: 2024081461,
        refresh: 7200,
        retry: 3600,
        expire: 1209600,
        minimum: 3600,
    });
}
