//! An in-memory table of text cells, read from and written to comma-separated
//! text. The format has no quoting: every comma separates two cells.
pub mod laws;
pub mod render;
pub mod table;
pub mod text;

pub use table::{CsvFile, ParseError, TableModel};
