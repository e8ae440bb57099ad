//! Exact vector search over the rows of one data file, with verified contracts.

pub mod binary32;
pub mod error;
pub mod exact;
pub mod heap;
pub mod metric;
pub mod reader;
pub mod result;
pub mod rounding;
pub mod text;
