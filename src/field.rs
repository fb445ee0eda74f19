//! Field specifiers: the address and length of one field of a template.
use vstd::prelude::*;

verus! {

/// The semantic type of an information element.
#[derive(PartialEq, Eq, Structural, Hash, Clone, Copy, Debug)]
pub enum DataRecordType {
    UnsignedInt,
    SignedInt,
    Float,
    Bool,
    MacAddress,
    Bytes,
    String,
    DateTimeSeconds,
    DateTimeMilliseconds,
    DateTimeMicroseconds,
    DateTimeNanoseconds,
    Ipv4Addr,
    Ipv6Addr,
}

/// One field of a template record: an information element, possibly
/// enterprise-specific, and the number of bytes its values take.
#[derive(PartialEq, Eq, Structural, Hash, Clone, Copy, Debug)]
pub struct FieldSpecifier {
    pub information_element_identifier: u16,
    pub field_length: u16,
    pub enterprise_number: Option<u32>,
}

impl FieldSpecifier {
    pub fn new(
        enterprise_number: Option<u32>,
        information_element_identifier: u16,
        field_length: u16,
    ) -> (r: Self)
        ensures
            r.enterprise_number == enterprise_number,
            r.information_element_identifier == information_element_identifier,
            r.field_length == field_length,
    {
        FieldSpecifier { information_element_identifier, field_length, enterprise_number }
    }
}

/// The name under which a data record holds a field's value.
#[derive(Clone, Debug, PartialEq, Eq, Hash)]
pub enum DataRecordKey {
    /// A name known to the information-element registry.
    Str(&'static str),
    /// An element the registry does not know, named by its specifier.
    Unrecognized(FieldSpecifier),
    /// A placeholder for a name that could not be made.
    Error(String),
}

/// Two keys name the same field.
pub open spec fn same_key(a: DataRecordKey, b: DataRecordKey) -> bool {
    match (a, b) {
        (DataRecordKey::Str(x), DataRecordKey::Str(y)) => x@ == y@,
        (DataRecordKey::Unrecognized(x), DataRecordKey::Unrecognized(y)) => x == y,
        (DataRecordKey::Error(x), DataRecordKey::Error(y)) => x@ == y@,
        _ => false,
    }
}

} // verus!
