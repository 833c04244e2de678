use lib::errors::DnsError;
use lib::types::{Message, RData, Type};

fn header(qd: u16, an: u16) -> Vec<u8> {
    vec![0xab, 0xcd, 0x81, 0x80, 0, qd as u8, 0, an as u8, 0, 0, 0, 0]
}

#[test]
fn follows_compression_pointer() {
    let mut b = header(1, 1);
    // question: example.com A IN at offset 12
    b.extend_from_slice(&[7, b'e', b'x', b'a', b'm', b'p', b'l', b'e', 3, b'c', b'o', b'm', 0, 0, 1, 0, 1]);
    // answer: www + pointer to 12, A IN ttl 60 len 4
    b.extend_from_slice(&[3, b'w', b'w', b'w', 0xc0, 12, 0, 1, 0, 1, 0, 0, 0, 60, 0, 4, 1, 2, 3, 4]);
    let m = Message::try_from(b.as_slice()).unwrap();
    assert_eq!(m.question()[0].qname, "example.com");
    assert_eq!(m.answers().len(), 1);
    assert!(matches!(m.answers()[0].rdata(), RData::A(ip) if *ip == [1, 2, 3, 4]));
    assert_eq!(m.header().id(), 0xabcd);
}

#[test]
fn pointer_to_itself_is_refused() {
    let mut b = header(1, 0);
    b.extend_from_slice(&[0xc0, 12, 0, 1, 0, 1]);
    assert!(matches!(Message::try_from(b.as_slice()), Err(DnsError::PointerLoop)));
}

#[test]
fn forward_pointer_is_refused() {
    let mut b = header(1, 0);
    b.extend_from_slice(&[0xc0, 20, 0, 1, 0, 1, 0, 0, 1, b'a', 0]);
    assert!(matches!(Message::try_from(b.as_slice()), Err(DnsError::PointerLoop)));
}

#[test]
fn pointer_cycle_is_refused() {
    let mut b = header(1, 0);
    // offset 12: label "a", then pointer to 14 (itself); the question name at 16 points to 12.
    b.extend_from_slice(&[1, b'a', 0xc0, 12, 0xc0, 12, 0, 1, 0, 1]);
    let r = Message::try_from(b.as_slice());
    assert!(matches!(r, Err(DnsError::PointerLoop)), "{:?}", r);
}

#[test]
fn short_buffers() {
    assert!(matches!(
        Message::try_from(&[0u8, 1, 2][..]),
        Err(DnsError::OutOfBytes { needed: 2, available: 1 })
    ));
    let mut b = header(1, 0);
    b.extend_from_slice(&[5, b'a', b'b']);
    assert!(matches!(
        Message::try_from(b.as_slice()),
        Err(DnsError::OutOfBytes { needed: 1, available: 0 })
    ));
    let mut b = header(1, 0);
    b.extend_from_slice(&[1, b'a', 0, 0]);
    assert!(matches!(
        Message::try_from(b.as_slice()),
        Err(DnsError::OutOfBytes { needed: 2, available: 1 })
    ));
    let mut b = header(0, 1);
    b.extend_from_slice(&[0, 0, 1, 0, 1, 0, 0]);
    assert!(matches!(
        Message::try_from(b.as_slice()),
        Err(DnsError::OutOfBytes { needed: 4, available: 2 })
    ));
}

#[test]
fn unknown_codes() {
    let mut b = header(1, 0);
    b.extend_from_slice(&[0, 0, 99, 0, 1]);
    assert!(matches!(Message::try_from(b.as_slice()), Err(DnsError::UnknownType(99))));
    let mut b = header(1, 0);
    b.extend_from_slice(&[0, 0, 1, 0, 2]);
    assert!(matches!(Message::try_from(b.as_slice()), Err(DnsError::UnknownClass(2))));
}

#[test]
fn rdata_length_must_match() {
    let mut b = header(0, 1);
    b.extend_from_slice(&[0, 0, 1, 0, 1, 0, 0, 0, 1, 0, 5, 1, 2, 3, 4, 9]);
    assert!(matches!(
        Message::try_from(b.as_slice()),
        Err(DnsError::InvalidRdataLength { record_type: Type::A, length: 5 })
    ));
}

#[test]
fn character_strings_and_trailing_bytes() {
    let mut b = header(0, 1);
    b.extend_from_slice(&[0, 0, 16, 0, 1, 0, 0, 0, 1, 0, 4, 3, b'a', b'b', b'c', 0xff, 0xff]);
    let m = Message::try_from(b.as_slice()).unwrap();
    assert!(matches!(m.answers()[0].rdata(), RData::TXT(s) if s == "abc"));
}
