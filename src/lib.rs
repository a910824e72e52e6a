//! Decoding of dBase / FoxPro tables (`.dbf`, with an optional `.fpt` / `.dbt`
//! memo file) into semicolon-separated text.

pub mod bytes;
pub mod convert;
pub mod error;
pub mod field;
pub mod headerdata;
pub mod memo;
pub mod text;

pub use convert::{convert_dbf_bytes, decode_table, get_record_as_csv, CsvOutput};
pub use error::DbfError;
pub use field::{get_field_content_as_string, memo_block_number, FieldKind};
pub use headerdata::{
    get_field_header_as_csv, get_fields, DbfFields, DbfHeader, MemoFileType, MemoHeader,
};
pub use memo::MemoResolver;
