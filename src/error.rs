//! The ways a read or a write can fail.
use crate::field::{DataRecordKey, DataRecordType};
use vstd::prelude::*;

verus! {

/// Every failure of the codec. Each one aborts the message, set or record
/// being processed.
#[derive(Debug, Clone)]
pub enum IpfixError {
    /// A data set or lookup referred to a template id that is not stored.
    MissingTemplate(u16),
    /// A data record lacks the value for a field of its template.
    MissingData(DataRecordKey),
    /// No wire representation exists for this type at this length.
    InvalidFieldSpecLength { ty: DataRecordType, length: u16 },
    /// The input ended before the item being read did.
    Truncated,
    /// The message does not start with the version number 10.
    BadVersion(u16),
    /// A set id of 0, 1 or 4 to 255.
    ReservedSetId(u16),
    /// A template id of 0 to 255.
    ReservedTemplateId(u16),
    /// A set header whose length does not exceed its own four bytes.
    InvalidSetLength(u16),
    /// A data record that takes no bytes in a set that still has content.
    EmptyRecord,
    /// A value or a length too large for the field that must hold it.
    ValueOverflow,
    /// A string field whose bytes are not UTF-8.
    InvalidUtf8,
}

} // verus!
