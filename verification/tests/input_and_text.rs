use lib::errors::DnsError;
use lib::transport::{check_tcp_response, check_udp_response, tcp_length_prefix, tcp_message_length, UdpOutcome};
use lib::types::{Header, Message, Type};
use lib::utils::validate_input;

#[test]
fn valid_domains() {
    assert_eq!(validate_input("google.com"), Ok(()));
    assert_eq!(validate_input("a-b.c0"), Ok(()));
    assert_eq!(validate_input("google"), Ok(()));
}

#[test]
fn invalid_domains() {
    assert_eq!(
        validate_input(""),
        Err("Invalid domain: empty label (consecutive dots are not allowed)".to_string())
    );
    assert_eq!(
        validate_input(" google.com"),
        Err("Invalid label \" google\": invalid character ' ', only letters, digits, and hyphens are allowed".to_string())
    );
    assert_eq!(
        validate_input("google.com\t"),
        Err("Invalid label \"com\t\": invalid character '\t', only letters, digits, and hyphens are allowed".to_string())
    );
    assert_eq!(
        validate_input("  mail.google.com\t"),
        Err("Invalid label \"  mail\": invalid character ' ', only letters, digits, and hyphens are allowed".to_string())
    );
    assert_eq!(
        validate_input("goo\u{3000}gle.com"),
        Err("Invalid label \"goo\u{3000}gle\": invalid character '\u{3000}', only letters, digits, and hyphens are allowed".to_string())
    );
    assert_eq!(
        validate_input("google..com"),
        Err("Invalid domain: empty label (consecutive dots are not allowed)".to_string())
    );
    assert_eq!(
        validate_input(".google.com"),
        Err("Invalid domain: empty label (consecutive dots are not allowed)".to_string())
    );
    assert_eq!(
        validate_input("-google.com"),
        Err("Invalid label \"-google\": labels cannot start or end with a hyphen".to_string())
    );
    assert_eq!(
        validate_input("google.com-"),
        Err("Invalid label \"com-\": labels cannot start or end with a hyphen".to_string())
    );
    assert_eq!(
        validate_input("goo gle.com"),
        Err("Invalid label \"goo gle\": invalid character ' ', only letters, digits, and hyphens are allowed".to_string())
    );
    assert_eq!(
        validate_input("google!.com"),
        Err("Invalid label \"google!\": invalid character '!', only letters, digits, and hyphens are allowed".to_string())
    );
    let long_label = "a".repeat(64);
    assert_eq!(
        validate_input(&format!("{}.com", long_label)),
        Err(format!("Invalid label \"{}\": exceeds maximum length of 63 characters", long_label))
    );
    let long_name = format!("{}.com", vec!["abcdefghi"; 26].join("."));
    assert_eq!(
        validate_input(&long_name),
        Err("Invalid domain: exceeds maximum length of 253 characters".to_string())
    );
}

#[test]
fn type_names() {
    assert_eq!(Type::get_type("AAAA").unwrap(), Type::AAAA);
    assert_eq!(Type::get_type("TXT").unwrap(), Type::TXT);
    assert!(matches!(Type::get_type("FOO"), Err(DnsError::UnknownTypeString(s)) if s == "FOO"));
    assert_eq!(Type::MX.name(), "MX");
    assert_eq!(Type::CNAME.name(), "CNAME");
}

#[test]
fn error_texts() {
    assert_eq!(
        DnsError::OutOfBytes { needed: 4, available: 123 }.describe(),
        "Out of Bytes needed: 4, available: 123"
    );
    assert_eq!(
        DnsError::IdMismatch { expected: 64567, got: 0 }.describe(),
        "id mismatch: expected 64567, got 0"
    );
    assert_eq!(
        DnsError::InvalidRdataLength { record_type: Type::SOA, length: 10 }.describe(),
        "invalid RDATA length 10 for record type SOA"
    );
    assert_eq!(DnsError::PointerLoop.describe(), "Error pointer keeps looping to the same place");
    assert_eq!(DnsError::UnknownType(65535).describe(), "Error Unknown type 65535");
    assert_eq!(DnsError::UnknownTypeString("ZZ".to_string()).describe(), "Error Unknown type ZZ");
    assert_eq!(DnsError::UnknownClass(2).describe(), "Error unknown class 2");
    assert_eq!(
        DnsError::PointerOutOfBounds { offset: 600, buffer_len: 512 }.describe(),
        "Pointer offset out of Bounds, offset: 600, buffer length: 512"
    );
    let io = DnsError::from(std::io::Error::new(std::io::ErrorKind::Other, "boom"));
    assert_eq!(io.describe(), "Error Input output boom");
}

fn message_with(id: u16, flags: u16) -> Message {
    Message::new(Header::new(id, flags, 0, 0, 0, 0), vec![], vec![], vec![], vec![])
}

#[test]
fn response_checks() {
    let q = message_with(7, 0x0100);
    assert_eq!(check_udp_response(&q, &message_with(7, 0x8180)).unwrap(), UdpOutcome::Done);
    assert_eq!(check_udp_response(&q, &message_with(7, 0x8380)).unwrap(), UdpOutcome::RetryOverTcp);
    assert!(matches!(
        check_udp_response(&q, &message_with(8, 0x8180)),
        Err(DnsError::IdMismatch { expected: 7, got: 8 })
    ));
    assert!(check_tcp_response(&q, &message_with(7, 0)).is_ok());
    assert!(matches!(check_tcp_response(&q, &message_with(9, 0)), Err(DnsError::IdMismatch { expected: 7, got: 9 })));
}

#[test]
fn tcp_framing() {
    assert_eq!(tcp_length_prefix(300), [1, 44]);
    assert_eq!(tcp_message_length([1, 44]), 300);
    assert_eq!(tcp_message_length(tcp_length_prefix(65535)), 65535);
    assert_eq!(tcp_length_prefix(65536), [0, 0]);
}
