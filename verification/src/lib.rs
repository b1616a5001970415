//! Extraction of tabular data from HTML text and rendering as delimited rows.
//!
//! The library scans a document for `<table>` regions, collects the cleaned
//! text of every `<td>`/`<th>` cell row by row, and serializes the rows under
//! configurable formatting rules: delimiter, quoting policy, header
//! suppression, explicit per-column quoting, and column selection.
//! Malformed markup never fails an extraction; it degrades to partial or
//! empty results.

pub mod chars;
pub mod clean;
pub mod extract;
pub mod format;
pub mod options;
pub mod pipeline;
pub mod props;
pub mod scan;

pub use crate::clean::clean_cell_content;
pub use crate::extract::extract_row_cells;
pub use crate::extract::extract_table_rows;
pub use crate::format::format_row_with_options;
pub use crate::options::CsvOptions;
pub use crate::options::QuoteMode;
pub use crate::pipeline::extract_table_from_html;
pub use crate::pipeline::extract_table_from_html_with_options;
