//! The result ledger of a typing-practice service: recording completed
//! tests exactly once and reading a user's history back, newest first, in
//! cursor-delimited pages.
pub mod ledger;
pub mod preferences;
pub mod results;
