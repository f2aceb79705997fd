//! Per-station temperature summaries over `<key>;<tenths>` text records, computed with
//! exact fixed-point arithmetic and reported in byte-wise key order.
pub mod keys;
pub mod record;
pub mod parse;
pub mod aggregate;
pub mod format;
pub mod input;
pub mod summary;

pub use aggregate::Aggregator;
pub use format::{format_entry, format_report, format_tenths, ReportEntry};
pub use parse::{parse_line, ParseError, Reading};
pub use record::StationRecord;
pub use summary::summarize;
