//! A text-transformation library: it scans a document body for the `@code`
//! annotation marker, parses the pipe-delimited table that follows it, and
//! replaces the marker-plus-table span with an HTML table in which cells
//! wrapped in inline-code delimiters render as preformatted code.

pub mod table;
pub mod text;
