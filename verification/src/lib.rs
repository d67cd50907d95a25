//! An index of a Markdown document as a tree of sections addressed by
//! slug paths, with paginated listing, section reads, reference lookup and
//! title search.
pub mod engine;
mod text;
mod table;
mod db;
pub mod laws;

pub use db::MarkdownDB;
