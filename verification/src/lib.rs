//! A news ticker: feed entries kept in a table with a current position that
//! can be moved forwards and backwards, feed-list and feed parsing, and the
//! text shown to users and sent to the content classifier.

pub mod db;
pub mod feed;
pub mod text;
pub mod filter;
pub mod guard;
