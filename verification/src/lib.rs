//! Renders tabular data as aligned, styled plain text.
//!
//! A [`table::Table`] owns typed columns and rows of cells.  Rendering lays
//! the table out as a deterministic sequence of color-tagged text spans
//! ([`render::Span`]); callers write those spans to any sink.  Cell contents
//! that read as decimal numbers can be reformatted (fixed decimal places,
//! thousands grouping) and aggregated (sum, average, minimum, maximum)
//! exactly, and rows can be sorted, filtered, and grouped with subtotal
//! rows.  A CSV codec writes a table's records out and reads them back.

pub mod aggregate;
pub mod csv;
pub mod group;
pub mod numbers;
pub mod render;
pub mod style;
pub mod table;
pub mod text;

pub use aggregate::AggregateOp;
pub use numbers::Fixed;
pub use render::Span;
pub use style::{Alignment, TableStyle, TableStyleConfig, TextColor};
pub use table::{Cell, CellStyle, Column, Table, TableError};
pub use text::lines_of;
