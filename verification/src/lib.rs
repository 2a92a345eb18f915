//! A record data model for template-driven text extraction: fields that hold
//! one string or an ordered list of strings, merge operations with
//! auto-promotion and overlay semantics, and a positional diff over two
//! sequences of records.

pub mod compare;
pub mod record;
pub mod value;

pub use record::DataRecord;
pub use record::DataRecordConversion;
pub use record::MergeConflict;
pub use record::RecordView;
pub use value::Value;
pub use value::ValueView;
