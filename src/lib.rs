//! IPFIX (RFC 7011) reader and writer over in-memory byte buffers.
pub mod bytes;
pub mod data;
pub mod error;
pub mod field;
pub mod laws;
pub mod message;
pub mod records;
pub mod template_store;
pub mod value;

pub use data::DataRecord;
pub use error::IpfixError;
pub use message::{Message, RecordSet, Records};
pub use field::{DataRecordKey, DataRecordType, FieldSpecifier};
pub use records::{OptionsTemplateRecord, TemplateRecord};
pub use template_store::{
    ExpandedFieldSpecifier, Formatter, InformationElement, Template, TemplateMap, TemplateStorage,
};
pub use value::DataRecordValue;
