//! A terminal-table engine for streams of named, hierarchical measurements.
//!
//! Dotted measurement names such as `group.value` are arranged into a tree
//! of header groups; the engine renders a multi-line header with centered
//! group labels and renders data rows with per-column display strategies,
//! alignment and automatic column growth.

pub mod laws;
pub mod passes;
pub mod records;
pub mod render;
pub mod table;
pub mod tree;
pub mod value;

pub use records::status_row;
pub use records::table_from_records;
pub use records::Record;
pub use records::UnitClass;
pub use table::Table;
pub use table::TableBuilder;
pub use value::Align;
pub use value::DisplayKind;
pub use value::Value;
pub use value::ValueV;
