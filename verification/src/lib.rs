//! Indexing, querying and link analysis for a directory of Markdown notes.
//!
//! A note is a text file: an optional YAML header between two lines of three
//! hyphens, then Markdown. The library turns the text of such files into
//! [`topic::Topic`]s, orders and searches them, and works on the links
//! between them. It never touches the file system: callers hand in paths and
//! texts and act on what comes back.
//!
//! Every function carries a contract over `Seq<char>` models of the texts
//! involved. Tokenising Markdown, reading YAML, Unicode case and character
//! classes and the anatomy of paths are left to `pulldown-cmark`, `serde_yaml`
//! and the standard library; their results enter the contracts by name.

pub mod backlinks;
pub mod config;
pub mod constants;
pub mod frontmatter;
pub mod index;
pub mod keyed;
pub mod lint;
pub mod markdown;
pub mod meta;
pub mod paths;
pub mod query;
pub mod rename;
pub mod resolve;
pub mod template;
pub mod text;
pub mod topic;
pub mod utils;
