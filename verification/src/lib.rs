//! Selection of bytes, characters or delimiter-separated fields from lines of
//! text, driven by a list of ranges such as `2-4,7-`.

pub mod args;
pub mod cut;
pub mod fields;
pub mod filter;
pub mod lines;
pub mod message;
pub mod order;
pub mod parse;
pub mod pattern;
pub mod range;
pub mod render;
pub mod select;
pub mod text;
