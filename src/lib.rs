//! Repairs the content of note blocks imported from another note tool: image
//! links, math delimiters and callouts, plus the walk over a document's block
//! tree that decides which blocks are fetched, rewritten and stored back.

pub mod blockquote;
pub mod error;
pub mod file_info;
pub mod math_block;
pub mod paragraph;
pub mod text;
pub mod tree;
pub mod walk;
