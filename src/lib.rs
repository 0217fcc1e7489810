//! Reads a book's outline (a `SUMMARY.md`-style list of links), checks its
//! structure, numbers its chapters and resolves it against the chapter files
//! into a tree of chapters.
//!
//! - `line`: classifying one outline line and measuring its indentation.
//! - `summary`: the outline parser and its section numbering.
//! - `book`: the book tree, resolution against a store of files, creation of
//!   missing chapter files, and depth-first walks.
//! - `laws`, `numbering`: properties of parsing and resolution, proved.
//! - `static_files`, `toc`, `config`: hashed asset names, table-of-contents
//!   paths and configuration keys from the environment.
//! - `text`, `path`: character and location helpers.

pub mod text;
pub mod line;
pub mod path;
pub mod summary;
pub mod book;
pub mod numbering;
pub mod laws;
pub mod static_files;
pub mod toc;
pub mod config;
