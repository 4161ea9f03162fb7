//! Serialization of structured records onto the cell grid of a worksheet.
//!
//! A record type is first given a layout (which fields appear, in which
//! column, under which header), and each record serialized afterwards
//! lands on the next row of that layout.
pub mod error;
pub mod format;
pub mod value;
pub mod header;
pub mod grid;
pub mod serializer;
pub mod laws;

pub use error::XlsxError;
pub use format::Format;
pub use grid::{Cell, COL_MAX, MAX_STRING_LEN, ROW_MAX};
pub use header::CustomSerializeHeader;
pub use serializer::Worksheet;
pub use value::{CellValue, Value};
