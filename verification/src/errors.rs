//! The errors of this library.
use vstd::prelude::*;
use vstd::string::StringExecFns;
use crate::text::{decimal, push_decimal};
use crate::types::{type_mnemonic, Type};

verus! {

#[verifier::external_type_specification]
#[verifier::external_body]
pub struct ExIoError(std::io::Error);

/// Everything that can go wrong while decoding or exchanging messages.
#[derive(Debug)]
pub enum DnsError {
    OutOfBytes { needed: usize, available: usize },
    PointerOutOfBounds { offset: usize, buffer_len: usize },
    PointerLoop,
    IdMismatch { expected: u16, got: u16 },
    InvalidRdataLength { record_type: Type, length: u16 },
    Io(std::io::Error),
    UnknownType(u16),
    UnknownTypeString(String),
    UnknownClass(u16),
}

impl From<std::io::Error> for DnsError {
    fn from(value: std::io::Error) -> (r: Self) {
        DnsError::Io(value)
    }
}

impl vstd::std_specs::convert::FromSpecImpl<std::io::Error> for DnsError {
    open spec fn obeys_from_spec() -> bool {
        true
    }

    open spec fn from_spec(v: std::io::Error) -> Self {
        DnsError::Io(v)
    }
}


/// The text of an I/O error. Calls the `Display` impl of `std::io::Error`,
/// whose text may come from the operating system; nothing is claimed of it.
#[verifier::external_body]
fn io_error_text(e: &std::io::Error) -> String {
    format!("{}", e)
}

/// The text that describes an error, for every error but `Io`, whose text
/// comes from the operating system.
pub open spec fn error_text(e: DnsError) -> Seq<char> {
    match e {
        DnsError::OutOfBytes { needed, available } => "Out of Bytes needed: "@ + decimal(
            needed as nat,
        ) + ", available: "@ + decimal(available as nat),
        DnsError::PointerOutOfBounds { offset, buffer_len } => "Pointer offset out of Bounds, offset: "@
            + decimal(offset as nat) + ", buffer length: "@ + decimal(buffer_len as nat),
        DnsError::PointerLoop => "Error pointer keeps looping to the same place"@,
        DnsError::IdMismatch { expected, got } => "id mismatch: expected "@ + decimal(expected as nat)
            + ", got "@ + decimal(got as nat),
        DnsError::InvalidRdataLength { record_type, length } => "invalid RDATA length "@ + decimal(
            length as nat,
        ) + " for record type "@ + type_mnemonic(record_type),
        DnsError::Io(_) => "Error Input output "@,
        DnsError::UnknownType(v) => "Error Unknown type "@ + decimal(v as nat),
        DnsError::UnknownTypeString(s) => "Error Unknown type "@ + s@,
        DnsError::UnknownClass(v) => "Error unknown class "@ + decimal(v as nat),
    }
}

impl DnsError {
    /// The text that describes this error. For `Io` it is the fixed prefix
    /// followed by the I/O error's own text.
    pub fn describe(&self) -> (r: String)
        ensures
            self is Io ==> r@.take(error_text(*self).len() as int) == error_text(*self),
            !(self is Io) ==> r@ == error_text(*self),
    {
        match self {
            DnsError::OutOfBytes { needed, available } => {
                let mut s = String::from_str("Out of Bytes needed: ");
                push_decimal(&mut s, *needed as u64);
                s.append(", available: ");
                push_decimal(&mut s, *available as u64);
                s
            },
            DnsError::PointerOutOfBounds { offset, buffer_len } => {
                let mut s = String::from_str("Pointer offset out of Bounds, offset: ");
                push_decimal(&mut s, *offset as u64);
                s.append(", buffer length: ");
                push_decimal(&mut s, *buffer_len as u64);
                s
            },
            DnsError::PointerLoop => String::from_str("Error pointer keeps looping to the same place"),
            DnsError::IdMismatch { expected, got } => {
                let mut s = String::from_str("id mismatch: expected ");
                push_decimal(&mut s, *expected as u64);
                s.append(", got ");
                push_decimal(&mut s, *got as u64);
                s
            },
            DnsError::InvalidRdataLength { record_type, length } => {
                let mut s = String::from_str("invalid RDATA length ");
                push_decimal(&mut s, *length as u64);
                s.append(" for record type ");
                s.append(record_type.name());
                s
            },
            DnsError::Io(error) => {
                let mut s = String::from_str("Error Input output ");
                let ghost prefix = s@;
                let t = io_error_text(error);
                s.append(t.as_str());
                assert(s@.take(prefix.len() as int) =~= prefix);
                s
            },
            DnsError::UnknownType(value) => {
                let mut s = String::from_str("Error Unknown type ");
                push_decimal(&mut s, *value as u64);
                s
            },
            DnsError::UnknownTypeString(value) => {
                let mut s = String::from_str("Error Unknown type ");
                s.append(value.as_str());
                s
            },
            DnsError::UnknownClass(value) => {
                let mut s = String::from_str("Error unknown class ");
                push_decimal(&mut s, *value as u64);
                s
            },
        }
    }
}

} // verus!
