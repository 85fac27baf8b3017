//! A line-oriented, tab/colon-delimited record codec.
//!
//! One line of text holds a sequence of `key:value` fields separated by
//! tabs; newline, carriage return, tab, colon and backslash inside a key
//! or a value travel behind a backslash escape.  Decoding a line yields a
//! [`record::Record`], a mapping from field name to a string or to the
//! absent marker; decoding a document yields one record per line.
//! Encoding renders a sequence of scalar items into one escaped line.

pub mod decode;
pub mod encode;
pub mod laws;
pub mod record;
pub mod text;
