//! Splitting the lines of a comma-separated track listing into fields,
//! building typed track records from them, and simple queries over a
//! collection of such records.

pub mod dataset;
pub mod record;
pub mod split;

pub use dataset::{parse_csv, RowError, CSV};
pub use record::{build_track, parse_line, parse_u32, RecordError, Track, TRACK_FIELDS};
pub use split::{split_row, SplitError};
