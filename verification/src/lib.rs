//! Append-only journal notes with a small front-matter header.
//!
//! A note file starts with a delimited header block holding a title and an
//! ordered tag list; every entry is one `- text` line appended at the end.
//! The library works on plain bytes: it resolves the date-partitioned file
//! path, renders the initial header, and merges new tags into an existing
//! header without duplicating or losing any. All file handling stays with
//! the caller.

pub mod entry;
pub mod error;
pub mod header;
pub mod host;
pub mod path;
pub mod text;

