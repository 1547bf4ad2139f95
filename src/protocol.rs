//! Records of the binary index-file layout.
//!
//! The persisted form is, in order: the version byte, an `IndexFileHeader`,
//! one `IndexHeader` per field, one `IndexRecord` per occurrence of a field,
//! then one end byte offset and one checksum (both `u64`) per data record.
use vstd::prelude::*;
use crate::field_type::FieldFlags;

verus! {

/// Format version of the index file.
pub type Version = u8;

/// Header of the whole index file.
///
/// `index_length` is the number of bytes the `IndexHeader` section occupies;
/// `data_count` is the number of data records indexed.
pub struct IndexFileHeader {
    pub index_length: u64,
    pub data_count: u64,
}

/// Header of one field's index.
pub struct IndexHeader {
    pub field_name: String,
    pub field_type: FieldFlags,
    pub index_record_count: u64,
}

/// One occurrence of a field's value in one data record.
///
/// `field_start_byte_offset` is the absolute offset of the value's first byte
/// in the data file; `field_length` is at least the length of the encoded value.
#[derive(Clone, Copy, PartialEq, Eq, Structural, Debug)]
pub struct IndexRecord {
    pub data_number: u64,
    pub field_start_byte_offset: u64,
    pub field_length: u64,
}

} // verus!
