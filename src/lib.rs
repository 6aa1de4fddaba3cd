//! A small line-oriented substring search: the lines of a text that contain
//! a query, matched exactly or after lowercasing, and the configuration that
//! selects between the two.
pub mod config;
pub mod search;
pub mod text;
