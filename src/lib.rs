//! Line-change statistics of a version-control history: parsing of the log
//! text into commits, and their aggregation by calendar period.

pub mod stat;
pub mod date;
pub mod utils;
pub mod commit;
pub mod text;
pub mod parser;
pub mod commits;
pub mod table;
