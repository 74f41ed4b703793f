//! Per-key minimum / mean / maximum over `<key>;<value>` records.
//!
//! Readings are fixed-point integers counting tenths of a unit. The input
//! buffer is cut into line-aligned partitions, each partition is folded into
//! its own table, the tables are merged, and the merged table is rendered
//! as `{key=min/mean/max, ...}` with keys in ascending byte order.
pub mod parse;
pub mod stats;
pub mod model;
pub mod table;
pub mod partition;
pub mod order;
pub mod render;

pub use parse::{parse_temperature, split_once, ParseError, MAX_TENTHS, NEWLINE, SEMICOLON};
pub use stats::StationData;
pub use table::{process_line, StationTable};
pub use partition::{aggregate_partitioned, aggregate_range, partition_bounds};
pub use order::{key_less, sorted_entries};
pub use render::{format_entries, format_results, mean_of, summarize};
