//! Building blocks for small text utilities: a parser for position lists
//! such as `1,7,3-5`, the selection of bytes, characters and fields of a
//! line by such a list, and the tallies of a word count.

pub mod config;
pub mod count;
pub mod extract;
pub mod positions;
pub mod report;
pub mod text;
