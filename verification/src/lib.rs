//! An in-memory store of decoded event-log records and the queries on it.
//!
//! A decoded record is a tree of values. [`ingest`] flattens it into one flat record and
//! collects the column names of a batch; [`store`] keeps the flat records and answers the
//! queries: [`filter`] keeps the records that meet the column filters, [`sort`] orders them,
//! [`page`] cuts one page out. [`export`] lays the store out as comma-separated values.
//! [`value`] holds the values and the ordered records, [`model`] their mathematical model,
//! over which every contract is stated, and [`text`] the operations on texts.

pub mod export;
pub mod filter;
pub mod ingest;
pub mod model;
pub mod page;
pub mod sort;
pub mod store;
pub mod text;
pub mod value;
